use dhcp_core::lease::delete_entry;
use dhcp_core::lease::insert_entry;
use dhcp_core::lease::select_addresses;
use dhcp_core::lease::select_entry;
use dhcp_core::lease::LeaseTable;
use dhcp_core::server::mask_to_prefix;
use dhcp_core::server::DhcpServer;
use dhcp_core::Ipv4;
use dhcp_core::Mac;

fn ip(d: u8) -> Ipv4 {
    Ipv4::from_octets(10, 0, 0, d)
}

fn test_server(leased: Vec<Ipv4>) -> DhcpServer {
    DhcpServer::new(
        ip(0),                              // network address
        Ipv4::from_octets(255, 255, 255, 0),// subnet mask
        ip(2),                              // the server itself
        ip(1),                              // default gateway
        ip(3),                              // DNS
        3600,
        &leased,
    )
    .expect("the mask is a valid prefix mask")
}

#[test]
fn mask_to_prefix_accepts_contiguous_masks() {
    assert_eq!(mask_to_prefix(Ipv4::from_octets(255, 255, 255, 0)), Some(24));
    assert_eq!(mask_to_prefix(Ipv4::from_octets(255, 255, 255, 255)), Some(32));
    assert_eq!(mask_to_prefix(Ipv4::from_octets(0, 0, 0, 0)), Some(0));
    assert_eq!(mask_to_prefix(Ipv4::from_octets(255, 255, 254, 0)), Some(23));
}

#[test]
fn mask_to_prefix_rejects_gapped_masks() {
    assert_eq!(mask_to_prefix(Ipv4::from_octets(255, 0, 255, 0)), None);
    assert_eq!(mask_to_prefix(Ipv4::from_octets(0, 0, 0, 1)), None);
}

#[test]
fn invalid_mask_is_fatal_at_startup() {
    let r = DhcpServer::new(
        ip(0),
        Ipv4::from_octets(255, 0, 255, 0),
        ip(2),
        ip(1),
        ip(3),
        3600,
        &Vec::new(),
    );
    assert!(r.is_none());
}

#[test]
fn slash_24_pool_withholds_the_reserved_addresses() {
    // network 10.0.0.0/24 with the five reserved addresses withheld
    let mut s = test_server(Vec::new());
    assert_eq!(s.address_pool.len(), 251);
    assert_eq!(s.pick_available_ip(), Some(ip(4)));
    assert_eq!(s.pick_available_ip(), Some(ip(5)));
}

#[test]
fn leased_addresses_are_withheld_from_the_pool() {
    let mut s = test_server(vec![ip(4), ip(6)]);
    assert_eq!(s.address_pool.len(), 249);
    assert_eq!(s.pick_available_ip(), Some(ip(5)));
    assert_eq!(s.pick_available_ip(), Some(ip(7)));
    assert_eq!(s.pick_specified_ip(ip(4)), None);
}

#[test]
fn configuration_is_kept() {
    let s = test_server(Vec::new());
    assert_eq!(s.network_addr, ip(0));
    assert_eq!(s.prefix, 24);
    assert_eq!(s.server_address, ip(2));
    assert_eq!(s.default_gateway, ip(1));
    assert_eq!(s.subnet_mask, Ipv4::from_octets(255, 255, 255, 0));
    assert_eq!(s.dns_server, ip(3));
    assert_eq!(s.lease_time, vec![0, 0, 0x0E, 0x10]);
}

#[test]
fn requested_address_leaves_the_pool_once() {
    let mut s = test_server(Vec::new());
    assert_eq!(s.pick_specified_ip(ip(100)), Some(ip(100)));
    assert_eq!(s.pick_specified_ip(ip(100)), None);
    assert_eq!(s.address_pool.len(), 250);
}

#[test]
fn released_address_returns_at_the_head() {
    let mut s = test_server(Vec::new());
    let a = s.pick_available_ip().unwrap();
    s.release_address(a);
    // the next pick is not the released address but the next lowest
    assert_eq!(s.pick_available_ip(), Some(ip(5)));
    // double release never duplicates
    s.release_address(a);
    s.release_address(a);
    assert_eq!(s.address_pool.len(), 250);
}

#[test]
fn allocation_then_renewal_reoffers_the_same_address() {
    let m = Mac::new(0x00, 0x11, 0x22, 0x33, 0x44, 0x55);
    let mut s = test_server(Vec::new());
    let mut table = LeaseTable::new();

    // allocation: the address leaves the pool and the lease is recorded
    let a = s.pick_available_ip().unwrap();
    insert_entry(&mut table, m, a);
    assert_eq!(a, ip(4));
    assert_eq!(s.pick_specified_ip(a), None);
    assert_eq!(select_addresses(&table, Some(0)), vec![a]);

    // release: the lease is marked deleted, the address returns to the pool
    delete_entry(&mut table, m);
    s.release_address(a);
    assert_eq!(select_addresses(&table, Some(0)), Vec::<Ipv4>::new());

    // renewal: the deleted row still names the prior address, and the
    // address is available again on request
    assert_eq!(select_entry(&table, m), Some(a));
    assert_eq!(s.pick_specified_ip(a), Some(a));
}

#[test]
fn pool_and_active_leases_stay_disjoint() {
    let m = Mac::new(0x00, 0x11, 0x22, 0x33, 0x44, 0x66);
    let mut s = test_server(Vec::new());
    let mut table = LeaseTable::new();

    let a = s.pick_available_ip().unwrap();
    insert_entry(&mut table, m, a);
    // the active address is not in the pool
    assert_eq!(s.pick_specified_ip(a), None);

    // after release it is in the pool and no longer active
    delete_entry(&mut table, m);
    s.release_address(a);
    assert!(!select_addresses(&table, Some(0)).contains(&a));
    assert_eq!(s.pick_specified_ip(a), Some(a));
}

#[test]
fn whole_pool_can_be_drained() {
    let mut s = test_server(Vec::new());
    let mut count: usize = 0;
    while let Some(_) = s.pick_available_ip() {
        count += 1;
    }
    assert_eq!(count, 251);
    assert_eq!(s.pick_available_ip(), None);
}
