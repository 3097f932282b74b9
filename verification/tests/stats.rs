use subrpc_core::Endpoint;
use subrpc_core::EndpointStats;

#[test]
fn stats_fold_two_timed_successes_and_a_failure() {
    let mut st = EndpointStats::default();
    st.add(true, Some(2000));
    assert_eq!(1, st.success);
    assert_eq!(4000, st.latency);
    st.add(true, Some(4000));
    assert_eq!(2, st.success);
    assert_eq!(6000, st.latency);
    st.add(false, None);
    assert_eq!(2, st.success);
    assert_eq!(1, st.failures);
    assert_eq!(6000, st.latency);
}

#[test]
fn the_blend_is_not_a_plain_average() {
    let mut st = EndpointStats::default();
    st.add(true, Some(2000));
    st.add(true, Some(4000));
    // A plain running average of the samples would read 3000.
    assert_ne!(3000, st.latency);
    assert_eq!(6000, st.latency);
}

#[test]
fn an_untimed_success_keeps_the_latency() {
    let mut st = EndpointStats::default();
    st.add(true, Some(2000));
    st.add(true, None);
    assert_eq!(2, st.success);
    assert_eq!(4000, st.latency);
}

#[test]
fn score_scales_and_signs_the_counters() {
    let st = EndpointStats { failures: 1, success: 2, latency: 6000 };
    // (2 - 1) * 100_000_000 / 6000 = 16666 millionths.
    assert_eq!(Some(16666), st.score());
    let losing = EndpointStats { failures: 3, success: 1, latency: 1000 };
    // (1 - 3) promoted to signed: -2 * 100_000_000 / 1000.
    assert_eq!(Some(-200000), losing.score());
}

#[test]
fn score_leaves_unsampled_endpoints_unranked() {
    let st = EndpointStats { failures: 0, success: 5, latency: 0 };
    assert_eq!(None, st.score());
}

#[test]
fn identity_ignores_stats_and_aliases() {
    let mut a = Endpoint::new("e", "wss://a", vec!["l".to_string()], vec!["x".to_string()]);
    let b = Endpoint::new("e", "wss://a", vec!["l".to_string()], vec!["y".to_string()]);
    a.stats.add(true, Some(2000));
    a.stats.add(false, None);
    assert_eq!(a, b);
    let c = Endpoint::new("e2", "wss://a", vec!["l".to_string()], vec![]);
    assert_ne!(a, c);
}
