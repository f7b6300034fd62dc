use tokio_benchmark::args::{parse_port, port_or_default, DEFAULT_PORT};

#[test]
fn parses_plain_ports() {
    assert_eq!(parse_port(b"18083"), Some(18083));
    assert_eq!(parse_port(b"0"), Some(0));
    assert_eq!(parse_port(b"8080"), Some(8080));
    assert_eq!(parse_port(b"65535"), Some(65535));
}

#[test]
fn accepts_a_leading_plus_sign() {
    assert_eq!(parse_port(b"+80"), Some(80));
    assert_eq!(parse_port(b"+"), None);
}

#[test]
fn accepts_leading_zeros() {
    assert_eq!(parse_port(b"007"), Some(7));
    assert_eq!(parse_port(b"00000000018083"), Some(18083));
}

#[test]
fn rejects_values_out_of_range() {
    assert_eq!(parse_port(b"65536"), None);
    assert_eq!(parse_port(b"99999"), None);
    assert_eq!(parse_port(b"999999999999999999999"), None);
}

#[test]
fn rejects_malformed_input() {
    assert_eq!(parse_port(b""), None);
    assert_eq!(parse_port(b"-1"), None);
    assert_eq!(parse_port(b"12a"), None);
    assert_eq!(parse_port(b" 80"), None);
    assert_eq!(parse_port(b"80 "), None);
    assert_eq!(parse_port(b"8_0"), None);
}

#[test]
fn parse_agrees_with_std() {
    let cases: [&[u8]; 10] = [
        b"18083", b"0", b"65535", b"65536", b"+80", b"", b"+", b"12a", b"-1", b"007",
    ];
    for c in cases.iter() {
        let text = std::str::from_utf8(c).unwrap();
        assert_eq!(parse_port(c), text.parse::<u16>().ok(), "case {:?}", text);
    }
}

#[test]
fn missing_or_bad_argument_falls_back_to_default() {
    assert_eq!(port_or_default(None), DEFAULT_PORT);
    assert_eq!(port_or_default(Some(b"not a port")), DEFAULT_PORT);
    assert_eq!(port_or_default(Some(b"70000")), DEFAULT_PORT);
    assert_eq!(port_or_default(Some(b"8080")), 8080);
}
