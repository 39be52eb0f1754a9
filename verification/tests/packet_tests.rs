use dhcp_core::packet::DhcpError;
use dhcp_core::packet::DhcpPacket;
use dhcp_core::Ipv4;
use dhcp_core::Mac;

fn blank_packet(len: usize) -> DhcpPacket {
    DhcpPacket::new(vec![0u8; len]).expect("buffer holds the fixed fields")
}

#[test]
fn new_rejects_short_buffer() {
    assert!(DhcpPacket::new(vec![0u8; 0]).is_none());
    assert!(DhcpPacket::new(vec![0u8; 236]).is_none());
    assert!(DhcpPacket::new(vec![0u8; 237]).is_some());
}

#[test]
fn op_round_trip() {
    let mut p = blank_packet(300);
    p.set_op(2);
    assert_eq!(p.get_op(), 2);
}

#[test]
fn htype_hlen_written_in_place() {
    let mut p = blank_packet(300);
    p.set_htype(1);
    p.set_hlen(6);
    assert_eq!(p.get_buffer()[1], 1);
    assert_eq!(p.get_buffer()[2], 6);
}

#[test]
fn xid_round_trip() {
    let mut p = blank_packet(300);
    p.set_xid(&[0xDE, 0xAD, 0xBE, 0xEF]);
    assert_eq!(p.get_xid(), &[0xDE, 0xAD, 0xBE, 0xEF]);
}

#[test]
fn flags_round_trip() {
    let mut p = blank_packet(300);
    p.set_flags(&[0x80, 0x00]);
    assert_eq!(p.get_flags(), &[0x80, 0x00]);
}

#[test]
fn ciaddr_round_trip() {
    let mut p = blank_packet(300);
    let ip = Ipv4::from_octets(192, 168, 10, 20);
    p.set_ciaddr(ip);
    assert_eq!(p.get_ciaddr(), ip);
}

#[test]
fn giaddr_round_trip() {
    let mut p = blank_packet(300);
    let ip = Ipv4::from_octets(10, 0, 0, 254);
    p.set_giaddr(ip);
    assert_eq!(p.get_giaddr(), ip);
}

#[test]
fn yiaddr_written_in_place() {
    let mut p = blank_packet(300);
    p.set_yiaddr(Ipv4::from_octets(10, 0, 0, 4));
    assert_eq!(&p.get_buffer()[16..20], &[10, 0, 0, 4]);
}

#[test]
fn chaddr_round_trip() {
    let mut p = blank_packet(300);
    let mac = Mac::new(0x00, 0x11, 0x22, 0x33, 0x44, 0x55);
    p.set_chaddr(mac);
    assert_eq!(p.get_chaddr(), mac);
    // only the first six bytes of the sixteen-byte field are written
    assert_eq!(&p.get_buffer()[28..36], &[0x00, 0x11, 0x22, 0x33, 0x44, 0x55, 0, 0]);
}

#[test]
fn setters_leave_other_fields_alone() {
    let mut p = blank_packet(300);
    p.set_xid(&[1, 2, 3, 4]);
    p.set_ciaddr(Ipv4::from_octets(172, 16, 0, 9));
    p.set_flags(&[0x80, 0x00]);
    assert_eq!(p.get_xid(), &[1, 2, 3, 4]);
    assert_eq!(p.get_ciaddr(), Ipv4::from_octets(172, 16, 0, 9));
    assert_eq!(p.get_flags(), &[0x80, 0x00]);
}

#[test]
fn magic_cookie_written_and_cursor_advanced() {
    let mut p = blank_packet(300);
    let mut cursor: usize = 236;
    p.set_magic_cookie(&mut cursor);
    assert_eq!(cursor, 240);
    assert_eq!(&p.get_buffer()[236..240], &[0x63, 0x82, 0x53, 0x63]);
}

#[test]
fn option_round_trip() {
    let mut p = blank_packet(300);
    let mut cursor: usize = 236;
    p.set_magic_cookie(&mut cursor);
    p.set_option(&mut cursor, 53, 1, Some(&[1]));
    p.set_option(&mut cursor, 51, 4, Some(&[0, 0, 0x0E, 0x10]));
    p.set_option(&mut cursor, 255, 0, None);
    assert_eq!(p.get_option(53), Ok(Some(vec![1])));
    assert_eq!(p.get_option(51), Ok(Some(vec![0, 0, 0x0E, 0x10])));
}

#[test]
fn option_not_written_is_absent() {
    let mut p = blank_packet(300);
    let mut cursor: usize = 236;
    p.set_magic_cookie(&mut cursor);
    p.set_option(&mut cursor, 53, 1, Some(&[3]));
    p.set_option(&mut cursor, 255, 0, None);
    assert_eq!(p.get_option(54), Ok(None));
}

#[test]
fn end_marker_leaves_cursor_in_place() {
    let mut p = blank_packet(300);
    let mut cursor: usize = 240;
    p.set_option(&mut cursor, 255, 0, None);
    assert_eq!(cursor, 240);
    assert_eq!(p.get_buffer()[240], 255);
}

#[test]
fn option_without_contents_reserves_space() {
    let mut p = blank_packet(300);
    let mut cursor: usize = 240;
    p.set_option(&mut cursor, 61, 2, None);
    assert_eq!(cursor, 244);
    assert_eq!(&p.get_buffer()[240..244], &[61, 2, 0, 0]);
}

#[test]
fn padding_byte_is_skipped() {
    let mut buf = vec![0u8; 300];
    // after the cookie: padding, then an option, then the end marker
    buf[240] = 0;
    buf[241] = 53;
    buf[242] = 1;
    buf[243] = 42;
    buf[244] = 255;
    let p = DhcpPacket::new(buf).unwrap();
    assert_eq!(p.get_option(53), Ok(Some(vec![42])));
    assert_eq!(p.get_option(99), Ok(None));
}

#[test]
fn truncated_option_is_malformed() {
    let mut buf = vec![0u8; 250];
    buf[240] = 53;
    buf[241] = 200;  // length runs past the end of the buffer
    let p = DhcpPacket::new(buf).unwrap();
    assert_eq!(p.get_option(53), Err(DhcpError::MalformedOptions));
    assert_eq!(p.get_option(54), Err(DhcpError::MalformedOptions));
}

#[test]
fn missing_end_marker_is_malformed() {
    let mut buf = vec![0u8; 242];
    buf[240] = 0;
    buf[241] = 0;
    let p = DhcpPacket::new(buf).unwrap();
    assert_eq!(p.get_option(53), Err(DhcpError::MalformedOptions));
}

#[test]
fn minimum_size_packet_has_no_option_space() {
    let p = blank_packet(237);
    assert_eq!(p.get_option(53), Err(DhcpError::MalformedOptions));
    assert_eq!(p.get_options().len(), 1);
}

#[test]
fn buffer_is_returned_whole() {
    let p = blank_packet(300);
    assert_eq!(p.get_buffer().len(), 300);
    assert_eq!(p.get_options().len(), 300 - 236);
}
