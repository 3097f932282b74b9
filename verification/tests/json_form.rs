use subrpc_core::local_data_to_json;
use subrpc_core::parse_local_data_json;
use subrpc_core::parse_registry_json;
use subrpc_core::registry_to_json;
use subrpc_core::Endpoint;
use subrpc_core::LocalData;
use subrpc_core::ParseError;
use subrpc_core::Registry;
use subrpc_core::SerError;

fn sample_data() -> LocalData {
    let mut reg = Registry::new("Test", "http://test/registry.json");
    reg.labels.push("G".to_string());
    reg.last_update = Some("2023-01-15T10:30:00+01:00".to_string());
    let mut e = Endpoint::new(
        "Parity",
        "wss://rpc.polkadot.io:443",
        vec!["Parity".to_string()],
        vec!["dot".to_string()],
    );
    e.stats.add(true, Some(2000));
    e.stats.add(true, Some(4000));
    e.stats.add(false, None);
    reg.add_endpoint("Polkadot", e);
    reg.add_endpoint("Kusama", Endpoint::new("K", "ws://k", vec![], vec![]));
    let mut disabled = Registry::new("Off", "http://off/registry.json");
    disabled.enabled = false;
    let mut data = LocalData::new("/tmp/subrpc_round.json").add_registry(reg).add_registry(
        disabled,
    );
    data.last_update = Some("2023-01-16T00:00:00+01:00".to_string());
    data
}

#[test]
fn the_store_round_trips_through_its_document() {
    let data = sample_data();
    let json = local_data_to_json(&data).unwrap();
    let back = parse_local_data_json(&json).unwrap();
    assert_eq!(data.file, back.file);
    assert_eq!(data.last_update, back.last_update);
    assert_eq!(data.registries.len(), back.registries.len());
    for (a, b) in data.registries.iter().zip(back.registries.iter()) {
        assert_eq!(a.enabled, b.enabled);
        assert_eq!(a.name, b.name);
        assert_eq!(a.url, b.url);
        assert_eq!(a.labels, b.labels);
        assert_eq!(a.last_update, b.last_update);
        assert_eq!(a.rpc_endpoints.len(), b.rpc_endpoints.len());
        for (ba, bb) in a.rpc_endpoints.iter().zip(b.rpc_endpoints.iter()) {
            assert_eq!(ba.0, bb.0);
            assert_eq!(ba.1.len(), bb.1.len());
            for (ea, eb) in ba.1.iter().zip(bb.1.iter()) {
                assert_eq!(ea, eb);
                assert_eq!(ea.aliases, eb.aliases);
                assert_eq!(ea.stats, eb.stats);
                assert_eq!(ea.url.text(), eb.url.text());
            }
        }
    }
    // A second pass prints the very same text.
    let again = local_data_to_json(&back).unwrap();
    assert_eq!(json, again);
}

#[test]
fn the_document_is_json_that_serde_also_reads() {
    let data = sample_data();
    let json = local_data_to_json(&data).unwrap();
    let v: serde_json::Value = serde_json::from_str(&json).unwrap();
    assert_eq!("/tmp/subrpc_round.json", v["file"]);
    assert_eq!("Test", v["registries"]["Test"]["name"]);
    let stats = &v["registries"]["Test"]["rpc_endpoints"]["Polkadot"][0]["stats"];
    assert_eq!(2, stats["success"]);
    assert_eq!(1, stats["failures"]);
    assert_eq!(6.0, stats["latency"]);
}

#[test]
fn latency_reads_as_decimal_seconds() {
    let doc = "{\"name\":\"R\",\"rpc_endpoints\":{\"C\":[{\"name\":\"e\",\"url\":\"ws://x\",\"stats\":{\"failures\":0,\"success\":1,\"latency\":1.5}}]}}";
    let reg = parse_registry_json(doc).unwrap();
    assert_eq!(1500, reg.rpc_endpoints[0].1[0].stats.latency);
    let printed = registry_to_json(&reg).unwrap();
    assert!(printed.contains("\"latency\":1.500"));
}

#[test]
fn defaults_fill_the_absent_fields() {
    let doc = "{\"name\":\"R\",\"rpc_endpoints\":{}}";
    let reg = parse_registry_json(doc).unwrap();
    assert!(reg.enabled);
    assert!(reg.url.is_none());
    assert!(reg.last_update.is_none());
    assert_eq!(0, reg.labels.len());
    assert_eq!(0, reg.rpc_endpoints.len());
}

#[test]
fn escaped_texts_round_trip() {
    let mut reg = Registry::new("quote\" and \\ and\nnewline", "http://r");
    reg.add_endpoint("C", Endpoint::new("tab\there", "ws://x", vec![], vec![]));
    let json = registry_to_json(&reg).unwrap();
    let back = parse_registry_json(&json).unwrap();
    assert_eq!(reg.name, back.name);
    assert_eq!("tab\there", back.rpc_endpoints[0].1[0].name);
}

#[test]
fn an_unprintable_text_refuses_to_serialize() {
    let reg = Registry::new("bell\u{0007}", "http://r");
    assert_eq!(SerError::UnprintableText, registry_to_json(&reg).unwrap_err());
}

#[test]
fn malformed_documents_are_rejected() {
    assert_eq!(ParseError::Malformed, parse_local_data_json("{ nope").unwrap_err());
    assert_eq!(ParseError::Malformed, parse_local_data_json("").unwrap_err());
    // A required field is missing.
    assert_eq!(ParseError::Malformed, parse_local_data_json("{\"file\":\"f\"}").unwrap_err());
    // A repeated field.
    assert_eq!(
        ParseError::Malformed,
        parse_registry_json("{\"name\":\"a\",\"name\":\"b\",\"rpc_endpoints\":{}}")
            .unwrap_err()
    );
    // A registry keyed by a name that is not its own.
    assert_eq!(
        ParseError::Malformed,
        parse_local_data_json(
            "{\"file\":\"f\",\"registries\":{\"X\":{\"name\":\"Y\",\"rpc_endpoints\":{}}}}"
        )
        .unwrap_err()
    );
    // Trailing text after the document.
    assert_eq!(
        ParseError::Malformed,
        parse_registry_json("{\"name\":\"a\",\"rpc_endpoints\":{}} extra").unwrap_err()
    );
}

#[test]
fn whitespace_between_tokens_is_accepted() {
    let doc = " {\n  \"name\" : \"R\" ,\n  \"rpc_endpoints\" : { } \n} \n";
    let reg = parse_registry_json(doc).unwrap();
    assert_eq!("R", reg.name);
}
