use dhcp_core::text::get_addresses_from_row;
use dhcp_core::text::ipv4_text;
use dhcp_core::text::parse_ipv4_bytes;
use dhcp_core::Ipv4;

#[test]
fn parses_ordinary_addresses() {
    assert_eq!(parse_ipv4_bytes(b"10.0.0.4"), Some(Ipv4::from_octets(10, 0, 0, 4)));
    assert_eq!(parse_ipv4_bytes(b"192.168.1.255"), Some(Ipv4::from_octets(192, 168, 1, 255)));
    assert_eq!(parse_ipv4_bytes(b"0.0.0.0"), Some(Ipv4::from_octets(0, 0, 0, 0)));
    assert_eq!(
        parse_ipv4_bytes(b"255.255.255.255"),
        Some(Ipv4::from_octets(255, 255, 255, 255))
    );
}

#[test]
fn rejects_out_of_range_components() {
    assert_eq!(parse_ipv4_bytes(b"256.0.0.1"), None);
    assert_eq!(parse_ipv4_bytes(b"10.0.0.999"), None);
    assert_eq!(parse_ipv4_bytes(b"10.0.0.1000"), None);
}

#[test]
fn rejects_leading_zeros() {
    assert_eq!(parse_ipv4_bytes(b"10.0.0.04"), None);
    assert_eq!(parse_ipv4_bytes(b"01.2.3.4"), None);
    assert_eq!(parse_ipv4_bytes(b"10.00.0.4"), None);
}

#[test]
fn rejects_wrong_shapes() {
    assert_eq!(parse_ipv4_bytes(b""), None);
    assert_eq!(parse_ipv4_bytes(b"10.0.0"), None);
    assert_eq!(parse_ipv4_bytes(b"10.0.0.4.5"), None);
    assert_eq!(parse_ipv4_bytes(b"10..0.4"), None);
    assert_eq!(parse_ipv4_bytes(b".10.0.4"), None);
    assert_eq!(parse_ipv4_bytes(b"10.0.0.4."), None);
    assert_eq!(parse_ipv4_bytes(b"a.b.c.d"), None);
    assert_eq!(parse_ipv4_bytes(b"10.0.0.4 "), None);
    assert_eq!(parse_ipv4_bytes(b"10:0:0:4"), None);
}

#[test]
fn formats_canonical_text() {
    assert_eq!(ipv4_text(Ipv4::from_octets(10, 0, 0, 4)), b"10.0.0.4".to_vec());
    assert_eq!(ipv4_text(Ipv4::from_octets(0, 0, 0, 0)), b"0.0.0.0".to_vec());
    assert_eq!(
        ipv4_text(Ipv4::from_octets(255, 255, 255, 255)),
        b"255.255.255.255".to_vec()
    );
}

#[test]
fn text_round_trip() {
    for ip in [
        Ipv4::from_octets(10, 0, 0, 4),
        Ipv4::from_octets(192, 168, 1, 255),
        Ipv4::from_octets(8, 8, 8, 8),
        Ipv4::from_octets(172, 31, 0, 1),
    ] {
        assert_eq!(parse_ipv4_bytes(&ipv4_text(ip)), Some(ip));
    }
}

#[test]
fn malformed_rows_are_skipped() {
    let rows: Vec<Vec<u8>> = vec![
        b"10.0.0.4".to_vec(),
        b"not an address".to_vec(),
        b"10.0.0.6".to_vec(),
        b"10.0.0.777".to_vec(),
    ];
    let parsed = get_addresses_from_row(&rows);
    assert_eq!(
        parsed,
        vec![Ipv4::from_octets(10, 0, 0, 4), Ipv4::from_octets(10, 0, 0, 6)]
    );
}
