use dhcp_core::probe::create_default_icmp_buffer;
use dhcp_core::probe::internet_checksum;
use dhcp_core::probe::probe_verdict;
use dhcp_core::probe::ProbeOutcome;
use dhcp_core::probe::ICMP_ECHO_REPLY;
use dhcp_core::probe::ICMP_ECHO_REQUEST;

#[test]
fn checksum_of_echo_request_header() {
    let buf = vec![8u8, 0, 0, 0, 0, 0, 0, 0];
    assert_eq!(internet_checksum(&buf), 0xF7FF);
}

#[test]
fn checksum_of_empty_buffer() {
    assert_eq!(internet_checksum(&Vec::new()), 0xFFFF);
}

#[test]
fn checksum_carries_around() {
    let buf = vec![0xFFu8, 0xFF, 0x00, 0x01];
    // 0xFFFF + 0x0001 wraps with an end-around carry to 0x0001
    assert_eq!(internet_checksum(&buf), 0xFFFE);
}

#[test]
fn default_icmp_buffer_is_a_checksummed_echo_request() {
    let buf = create_default_icmp_buffer();
    assert_eq!(buf, vec![ICMP_ECHO_REQUEST, 0, 0xF7, 0xFF, 0, 0, 0, 0]);
    // the checksum field makes the whole message sum to ones
    assert_eq!(internet_checksum(&buf), 0);
}

#[test]
fn echo_reply_in_time_means_in_use() {
    assert_eq!(probe_verdict(Some(ICMP_ECHO_REPLY)), ProbeOutcome::InUse);
}

#[test]
fn timeout_means_available() {
    assert_eq!(probe_verdict(None), ProbeOutcome::Available);
}

#[test]
fn other_icmp_traffic_is_no_counter_evidence() {
    assert_eq!(probe_verdict(Some(ICMP_ECHO_REQUEST)), ProbeOutcome::Available);
    assert_eq!(probe_verdict(Some(3)), ProbeOutcome::Available);
}
