use servo_sequencer::netconfig::parse_ip;

#[test]
fn dotted_quad_parses() {
    assert_eq!(parse_ip(b"192.168.1.20"), Some([192, 168, 1, 20]));
    assert_eq!(parse_ip(b"0.0.0.0"), Some([0, 0, 0, 0]));
    assert_eq!(parse_ip(b"255.255.255.255"), Some([255, 255, 255, 255]));
}

#[test]
fn malformed_addresses_are_refused() {
    assert_eq!(parse_ip(b"256.1.1.1"), None);
    assert_eq!(parse_ip(b"1.2.3"), None);
    assert_eq!(parse_ip(b"1.2.3.4.5"), None);
    assert_eq!(parse_ip(b"1..3.4"), None);
    assert_eq!(parse_ip(b"a.b.c.d"), None);
    assert_eq!(parse_ip(b""), None);
}
