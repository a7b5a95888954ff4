use graph_gateway::providers::EthereumProviders;

#[test]
fn providers_parse_rest_and_websocket() {
    let p = EthereumProviders::from_str(
        "mainnet=https://eth.example.com/v2/x,wss://eth.example.com/ws;rinkeby=http://localhost:8545",
    )
    .unwrap();
    assert_eq!(p.0.len(), 2);
    assert_eq!(p.0[0].network, "mainnet");
    assert_eq!(p.0[0].rest_url.href, "https://eth.example.com/v2/x");
    assert_eq!(p.0[0].rest_url.scheme, "https");
    assert_eq!(p.0[0].websocket_url.as_ref().unwrap().href, "wss://eth.example.com/ws");
    assert_eq!(p.0[1].network, "rinkeby");
    assert_eq!(p.0[1].rest_url.href, "http://localhost:8545/");
    assert!(p.0[1].websocket_url.is_none());
}

#[test]
fn providers_report_errors_after_usage() {
    let usage = "networks syntax: <network>=<rest-url>(,<ws-url>)?;...\n";
    let err = |s: &str| EthereumProviders::from_str(s).unwrap_err();
    assert_eq!(err("mainnet"), format!("{}Expected URLs, found none", usage));
    assert_eq!(
        err("m=http://a,http://b"),
        format!("{}Multiple REST API URLs found for m=http://a,http://b, expected 1", usage)
    );
    assert_eq!(
        err("m=ws://a,wss://b"),
        format!("{}Multiple WebSocket API URLs found for m=ws://a,wss://b, expected 1", usage)
    );
    assert_eq!(err("m=ftp://a"), format!("{}URL scheme not supported: ftp", usage));
    assert_eq!(err("m=ws://a"), format!("{}REST API URL not found", usage));
    assert_eq!(
        err("m=http://a,ws://b,http://c"),
        format!("{}Expected 1-2 URLS per provider, found 3", usage)
    );
    assert_eq!(err("m=not a url"), format!("{}relative URL without a base", usage));
}
