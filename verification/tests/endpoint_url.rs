use subrpc_core::EndpointUrl;

#[test]
fn test_from_str() {
    assert_eq!(
        EndpointUrl::Wss("wss://foobar".to_string()),
        EndpointUrl::parse("wss://foobar").unwrap()
    );
}

#[test]
fn parse_tags_every_scheme() {
    assert_eq!(
        EndpointUrl::Http("http://a".to_string()),
        EndpointUrl::parse("http://a").unwrap()
    );
    assert_eq!(
        EndpointUrl::Https("https://a".to_string()),
        EndpointUrl::parse("https://a").unwrap()
    );
    assert_eq!(EndpointUrl::Ws("ws://a".to_string()), EndpointUrl::parse("ws://a").unwrap());
    assert_eq!(EndpointUrl::Wss("wss://a".to_string()), EndpointUrl::parse("wss://a").unwrap());
}

#[test]
fn parse_keeps_the_text_whole() {
    let u = EndpointUrl::parse("wss://rpc.polkadot.io:443/path?x=1").unwrap();
    assert_eq!("wss://rpc.polkadot.io:443/path?x=1", u.text());
}

#[test]
fn parse_rejects_unrecognized_schemes() {
    assert!(EndpointUrl::parse("ftp://a").is_err());
    assert!(EndpointUrl::parse("").is_err());
    assert!(EndpointUrl::parse("wssx://a").is_err());
    assert!(EndpointUrl::parse("ws:/a").is_err());
    let e = EndpointUrl::parse("gopher://x").unwrap_err();
    assert_eq!("gopher://x", e.url);
}

#[test]
fn secure_transports_are_tagged_secure() {
    assert!(EndpointUrl::parse("wss://a").unwrap().is_secure());
    assert!(EndpointUrl::parse("https://a").unwrap().is_secure());
    assert!(!EndpointUrl::parse("ws://a").unwrap().is_secure());
    assert!(!EndpointUrl::parse("http://a").unwrap().is_secure());
}

#[test]
fn equality_needs_tag_and_text() {
    let a = EndpointUrl::parse("wss://a").unwrap();
    let b = EndpointUrl::parse("wss://a").unwrap();
    let c = EndpointUrl::parse("wss://b").unwrap();
    assert_eq!(a, b);
    assert_ne!(a, c);
    assert_ne!(
        EndpointUrl::Ws("wss://a".to_string()),
        EndpointUrl::Wss("wss://a".to_string())
    );
}
