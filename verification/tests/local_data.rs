use subrpc_core::local_data_to_json;
use subrpc_core::parse_local_data_json;
use subrpc_core::Endpoint;
use subrpc_core::LocalData;
use subrpc_core::Registry;

#[test]
fn local_data_test_builder() {
    let data = parse_local_data_json(
        &local_data_to_json(&LocalData::new("/tmp/subrpc_test.json"))
            .expect("Saving data should work"),
    )
    .expect("Load works")
    .add_registry(Registry::new("SubRPC", "http://some-registry/data.json"))
    .add_registry(Registry::new("SubRPC Gist", "https://gist.example/data.json"))
    .refresh(&vec![None, None]);
    let saved = local_data_to_json(&data).expect("Saving works");
    println!("{:#?}", data);
    println!("{saved}");
}

#[test]
fn test_merge() {
    let data = LocalData::new("/tmp/subrpc_test.json")
        .add_registry(Registry::new("SubRPC Gist 1", "https://gist.example/data.json"))
        .add_registry(Registry::new("SubRPC Gist 2", "https://gist.example/data2.json"))
        .refresh(&vec![None, None]);
    let _saved = local_data_to_json(&data).expect("Saving works");
    assert_eq!(2, data.registries.len());
    println!("{:#?}", data);
}

#[test]
fn adding_a_registry_of_a_known_name_overwrites_it() {
    let data = LocalData::new("/tmp/f")
        .add_registry(Registry::new("A", "http://one"))
        .add_registry(Registry::new("B", "http://two"))
        .add_registry(Registry::new("A", "http://three"));
    assert_eq!(2, data.registries.len());
    assert_eq!(Some("http://three".to_string()), data.registries[0].url);
}

fn scenario_data() -> LocalData {
    let mut reg = Registry::new("Test", "http://test/registry.json");
    reg.add_endpoint(
        "Polkadot",
        Endpoint::new("Parity", "wss://rpc.polkadot.io:443", vec!["Parity".to_string()], vec![]),
    );
    reg.add_endpoint(
        "Polkadot",
        Endpoint::new(
            "OnFinality",
            "wss://polkadot.api.onfinality.io:443/public-ws",
            vec!["OnFinality".to_string()],
            vec![],
        ),
    );
    LocalData::new("/tmp/scenario.json").add_registry(reg)
}

#[test]
fn a_mixed_case_chain_finds_its_endpoints() {
    let data = scenario_data();
    let hits = data.get_endpoints(Some("polkadot"));
    assert_eq!(2, hits.len());
    assert_eq!("Parity", hits[0].name);
    assert_eq!("OnFinality", hits[1].name);
}

#[test]
fn an_unknown_chain_yields_an_empty_list() {
    let data = scenario_data();
    let hits = data.get_endpoints(Some("Kusama"));
    assert_eq!(0, hits.len());
}

#[test]
fn a_disabled_registry_yields_no_endpoints() {
    let mut data = scenario_data();
    data.registries[0].enabled = false;
    assert_eq!(0, data.get_endpoints(None).len());
}

#[test]
fn two_registries_with_the_same_endpoint_yield_it_twice() {
    let mut reg1 = Registry::new("One", "http://one");
    reg1.add_endpoint("C", Endpoint::new("e", "wss://a", vec![], vec![]));
    let mut reg2 = Registry::new("Two", "http://two");
    reg2.add_endpoint("C", Endpoint::new("e", "wss://a", vec![], vec![]));
    let data = LocalData::new("/tmp/f").add_registry(reg1).add_registry(reg2);
    assert_eq!(2, data.get_endpoints(None).len());
}

#[test]
fn refresh_isolates_a_failing_registry() {
    let mut good = Registry::new("Good", "http://good/registry.json");
    good.labels.push("G".to_string());
    let mut bad = Registry::new("Bad", "http://bad/registry.json");
    bad.add_endpoint("Kept", Endpoint::new("old", "ws://old", vec![], vec![]));
    let data = LocalData::new("/tmp/f").add_registry(good).add_registry(bad);

    let doc = "{\"name\":\"Good\",\"rpc_endpoints\":{\"Polkadot\":[{\"name\":\"e1\",\"url\":\"wss://one\"}]}}";
    let refreshed = data.refresh(&vec![Some(doc.to_string()), None]);

    assert!(refreshed.last_update.is_some());
    assert_eq!(2, refreshed.registries.len());
    // The failing registry keeps its previous endpoint set whole.
    assert_eq!(1, refreshed.registries[1].rpc_endpoints.len());
    assert_eq!("Kept", refreshed.registries[1].rpc_endpoints[0].0);
    // The sibling was updated from its document, labels attached.
    assert_eq!(1, refreshed.registries[0].rpc_endpoints.len());
    assert_eq!("Polkadot", refreshed.registries[0].rpc_endpoints[0].0);
    let e = &refreshed.registries[0].rpc_endpoints[0].1[0];
    assert_eq!("e1", e.name);
    assert_eq!(vec!["G".to_string()], e.labels);
}
