use norn_rs::quic::parse_quic_uri;

#[test]
fn parse_quic_uri_valid() {
    assert_eq!(parse_quic_uri("quic://1.2.3.4:9001").unwrap(), "1.2.3.4:9001");
    assert_eq!(parse_quic_uri("quic://[::1]:9001").unwrap(), "[::1]:9001");
}

#[test]
fn parse_quic_uri_wrong_scheme_fails() {
    assert!(parse_quic_uri("tcp://1.2.3.4:9001").is_err());
    assert!(parse_quic_uri("").is_err());
}
