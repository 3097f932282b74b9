use subrpc_core::Endpoint;
use subrpc_core::EndpointType;
use subrpc_core::Filter;

#[test]
fn filter_test_builder() {
    let filter = Filter::new()
        .with_chain("Polkadot")
        .with_excludes(vec!["NO1".to_string(), "NO2".to_string()])
        .with_includes(vec!["YES1".to_string(), "YES2".to_string()])
        .with_ssl(true)
        .with_endpoint_type(EndpointType::Http);
    assert_eq!(Some("Polkadot".to_string()), filter.chain);
    println!("{:#?}", filter);
    println!("Filter: {}", filter.get_transport());
}

fn sample_endpoint() -> Endpoint {
    Endpoint::new(
        "ep",
        "wss://a",
        vec!["foo".to_string(), "bar".to_string()],
        vec!["dot".to_string()],
    )
}

#[test]
fn empty_include_exclude_sets_change_nothing() {
    let e = sample_endpoint();
    let plain = Filter::new().with_chain("Polkadot");
    let empty_sets = Filter::new().with_chain("Polkadot").with_includes(vec![]).with_excludes(
        vec![],
    );
    assert_eq!(plain.matches(&e, "polkadot"), empty_sets.matches(&e, "polkadot"));
    assert_eq!(plain.matches(&e, "Kusama"), empty_sets.matches(&e, "Kusama"));
}

#[test]
fn excluding_an_absent_label_changes_nothing() {
    let e = sample_endpoint();
    let without = Filter::new().with_chain("Polkadot");
    let with = Filter::new().with_chain("Polkadot").with_excludes(vec!["missing".to_string()]);
    assert_eq!(without.matches(&e, "Polkadot"), with.matches(&e, "Polkadot"));
    assert!(with.matches(&e, "Polkadot"));
}

#[test]
fn excluding_a_common_label_empties_the_selection() {
    let e = sample_endpoint();
    let f = Filter::new().with_excludes(vec!["foo".to_string()]);
    assert!(!f.matches(&e, "anything"));
}

#[test]
fn matches_composes_all_predicates() {
    let e = sample_endpoint();
    let f = Filter::new()
        .with_chain("Polkadot")
        .with_alias("DOT")
        .with_includes(vec!["foo".to_string()]);
    assert!(f.matches(&e, "POLKADOT"));
    assert!(!f.matches(&e, "Kusama"));
    let wrong_alias = Filter::new().with_alias("ksm");
    assert!(!wrong_alias.matches(&e, "Polkadot"));
    let wrong_include = Filter::new().with_includes(vec!["baz".to_string()]);
    assert!(!wrong_include.matches(&e, "Polkadot"));
}

#[test]
fn transport_renders_by_kind_and_security() {
    assert_eq!("ws", Filter::new().get_transport());
    assert_eq!("wss", Filter::new().with_ssl(true).get_transport());
    assert_eq!("http", Filter::new().with_endpoint_type(EndpointType::Http).get_transport());
    assert_eq!(
        "https",
        Filter::new().with_endpoint_type(EndpointType::Http).with_ssl(true).get_transport()
    );
    assert_eq!(
        "http/ws",
        Filter::new().with_endpoint_type(EndpointType::All).get_transport()
    );
    assert_eq!(
        "http/wss",
        Filter::new().with_endpoint_type(EndpointType::All).with_ssl(true).get_transport()
    );
    assert_eq!("ws", Filter::new().with_ssl(false).get_transport());
}
