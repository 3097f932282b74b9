use subrpc_core::Endpoint;
use subrpc_core::Filter;
use subrpc_core::Registry;
use subrpc_core::RemoteFetchError;

fn test_data() -> Registry {
    let mut reg = Registry::new("foo", "http://foo.bar");
    reg.labels.append(&mut vec!["glob1".to_string(), "glob2".to_string()]);

    reg.add_endpoint(
        "chain1",
        Endpoint::new(
            "ep11",
            "http://ep11.url",
            vec!["foo".to_string(), "bar".to_string()],
            vec!["one1".to_string()],
        ),
    );

    reg.add_endpoint(
        "chain1",
        Endpoint::new(
            "ep21",
            "http://ep21.url",
            vec!["foo".to_string(), "baz".to_string()],
            vec!["one2".to_string()],
        ),
    );

    reg.add_endpoint(
        "chain2",
        Endpoint::new(
            "ep21",
            "http://ep21.url",
            vec!["foo".to_string(), "bar".to_string()],
            vec!["two1".to_string()],
        ),
    );

    reg.add_endpoint(
        "chain2",
        Endpoint::new(
            "ep22",
            "http://ep22.url",
            vec!["foo".to_string(), "baz".to_string()],
            vec!["two2".to_string()],
        ),
    );

    println!("{reg:#?}");
    reg
}

#[test]
fn test_get_chains() {
    let reg = test_data();

    let chains = reg.get_chains();
    println!("chains = {:?}", chains);
    assert_eq!(2, chains.len());
}

#[test]
fn test_filter_chain_only() {
    let reg = test_data();

    let hits = reg.get_endpoints_filtered(Some(&Filter::new().with_chain("Chain1")));
    assert_eq!(2, hits.len())
}

#[test]
fn test_filter_alias() {
    let reg = test_data();

    let hits = reg.get_endpoints_filtered(Some(&Filter::new().with_alias("one1")));
    assert_eq!(1, hits.len())
}

#[test]
fn test_filter_glob1() {
    let reg = test_data();

    assert_eq!(
        2,
        reg.get_endpoints_filtered(Some(
            &Filter::new().with_chain("Chain1").with_includes(vec!["glob1".to_string()])
        ))
        .len()
    );

    assert_eq!(
        4,
        reg.get_endpoints_filtered(Some(&Filter::new().with_includes(vec!["glob1".to_string()])))
            .len()
    );
}

#[test]
fn test_filter_exclude_2() {
    let reg = test_data();

    assert_eq!(
        2,
        reg.get_endpoints_filtered(Some(&Filter::new().with_excludes(vec!["bar".to_string()])))
            .len()
    );
    assert_eq!(
        0,
        reg.get_endpoints_filtered(Some(&Filter::new().with_excludes(vec!["foo".to_string()])))
            .len()
    );
}

#[test]
fn test_default() {
    let reg1 = Registry::default();
    let json = subrpc_core::registry_to_json(&reg1).unwrap();
    println!("json= {json}");
}

#[test]
fn test_refresh_stats() {
    let mut reg1 = Registry::default();
    let outcomes = vec![
        vec![(false, None), (false, None)],
        vec![(false, None)],
    ];
    reg1.refresh_stats(&outcomes);
    println!("{:#?}", &reg1);
    reg1.refresh_stats(&outcomes);
    println!("{:#?}", &reg1);
    assert_eq!(2, reg1.rpc_endpoints[0].1[0].stats.failures);
}

#[test]
fn refresh_stats_folds_timed_successes() {
    let mut reg = Registry::default();
    let outcomes = vec![
        vec![(true, Some(2000)), (false, None)],
        vec![(true, None)],
    ];
    reg.refresh_stats(&outcomes);
    assert_eq!(1, reg.rpc_endpoints[0].1[0].stats.success);
    assert_eq!(4000, reg.rpc_endpoints[0].1[0].stats.latency);
    assert_eq!(1, reg.rpc_endpoints[0].1[1].stats.failures);
    assert_eq!(1, reg.rpc_endpoints[1].1[0].stats.success);
    assert_eq!(0, reg.rpc_endpoints[1].1[0].stats.latency);
}

#[test]
fn dedup_collides_on_identity_whatever_the_stats() {
    let mut reg = Registry::new("r", "http://r");
    let mut a = Endpoint::new("e", "wss://a", vec!["l".to_string()], vec!["x".to_string()]);
    a.stats.add(true, Some(1000));
    let b = Endpoint::new("e", "wss://a", vec!["l".to_string()], vec!["y".to_string()]);
    reg.add_endpoint("c", a);
    reg.add_endpoint("c", b);
    let hits = reg.get_endpoints_filtered(None);
    assert_eq!(1, hits.len());
}

#[test]
fn a_disabled_registry_skips_its_update() {
    let mut reg = Registry::new("r", "http://r");
    reg.enabled = false;
    assert!(reg.update(Some("not even json")).is_ok());
    assert_eq!(0, reg.rpc_endpoints.len());
}

#[test]
fn a_registry_without_url_skips_its_update() {
    let mut reg = Registry::default();
    assert!(reg.url.is_none());
    assert!(reg.update(None).is_ok());
    assert_eq!(2, reg.rpc_endpoints.len());
}

#[test]
fn a_failed_fetch_keeps_the_previous_endpoints() {
    let mut reg = Registry::default();
    reg.url = Some("http://somewhere/registry.json".to_string());
    let before = reg.rpc_endpoints.len();
    assert_eq!(RemoteFetchError::Network, reg.update(None).unwrap_err());
    assert_eq!(before, reg.rpc_endpoints.len());
}

#[test]
fn a_malformed_body_keeps_the_previous_endpoints() {
    let mut reg = Registry::default();
    reg.url = Some("http://somewhere/registry.json".to_string());
    let before = reg.rpc_endpoints.len();
    assert_eq!(RemoteFetchError::InvalidDocument, reg.update(Some("{ nope")).unwrap_err());
    assert_eq!(before, reg.rpc_endpoints.len());
}

#[test]
fn an_update_replaces_the_endpoints_and_attaches_labels() {
    let mut reg = Registry::new("R", "http://r/registry.json");
    reg.labels.append(&mut vec!["A".to_string(), "B".to_string()]);
    reg.add_endpoint("Old", Endpoint::new("old", "ws://old", vec![], vec![]));
    let doc = "{\"name\":\"R\",\"rpc_endpoints\":{\"Polkadot\":[{\"name\":\"e1\",\"url\":\"wss://one\",\"labels\":[\"own\"]}]}}";
    assert!(reg.update(Some(doc)).is_ok());
    assert_eq!(1, reg.rpc_endpoints.len());
    assert_eq!("Polkadot", reg.rpc_endpoints[0].0);
    let e = &reg.rpc_endpoints[0].1[0];
    assert_eq!("e1", e.name);
    assert_eq!(vec!["own".to_string(), "A".to_string(), "B".to_string()], e.labels);
    assert_eq!(0, e.stats.failures);
}

#[test]
fn an_update_rejects_a_document_with_a_bad_scheme() {
    let mut reg = Registry::new("R", "http://r/registry.json");
    let doc = "{\"name\":\"R\",\"rpc_endpoints\":{\"C\":[{\"name\":\"e\",\"url\":\"ftp://x\"}]}}";
    assert_eq!(RemoteFetchError::InvalidDocument, reg.update(Some(doc)).unwrap_err());
}
