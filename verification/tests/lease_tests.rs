use dhcp_core::lease::count_records_by_macaddr;
use dhcp_core::lease::delete_entry;
use dhcp_core::lease::insert_entry;
use dhcp_core::lease::select_addresses;
use dhcp_core::lease::select_entry;
use dhcp_core::lease::update_entry;
use dhcp_core::lease::LeaseEntry;
use dhcp_core::lease::LeaseState;
use dhcp_core::lease::LeaseTable;
use dhcp_core::Ipv4;
use dhcp_core::Mac;

fn ip(d: u8) -> Ipv4 {
    Ipv4::from_octets(10, 0, 0, d)
}

fn mac(last: u8) -> Mac {
    Mac::new(0x00, 0x11, 0x22, 0x33, 0x44, last)
}

#[test]
fn insert_then_lookup() {
    let mut table = LeaseTable::new();
    insert_entry(&mut table, mac(1), ip(4));
    assert_eq!(select_entry(&table, mac(1)), Some(ip(4)));
    assert_eq!(select_entry(&table, mac(2)), None);
}

#[test]
fn lookup_returns_most_recent_binding() {
    let mut table = LeaseTable::new();
    insert_entry(&mut table, mac(1), ip(4));
    insert_entry(&mut table, mac(2), ip(5));
    update_entry(&mut table, mac(1), ip(6), 0);
    assert_eq!(select_entry(&table, mac(1)), Some(ip(6)));
    assert_eq!(select_entry(&table, mac(2)), Some(ip(5)));
}

#[test]
fn deleted_row_still_answers_lookup() {
    let mut table = LeaseTable::new();
    insert_entry(&mut table, mac(1), ip(4));
    delete_entry(&mut table, mac(1));
    // the row is logically deleted, not removed: renewal can re-offer it
    assert_eq!(select_entry(&table, mac(1)), Some(ip(4)));
    assert_eq!(select_addresses(&table, Some(0)), Vec::<Ipv4>::new());
    assert_eq!(select_addresses(&table, Some(1)), vec![ip(4)]);
}

#[test]
fn select_addresses_filters_by_flag() {
    let mut table = LeaseTable::new();
    insert_entry(&mut table, mac(1), ip(4));
    insert_entry(&mut table, mac(2), ip(5));
    insert_entry(&mut table, mac(3), ip(6));
    delete_entry(&mut table, mac(2));
    assert_eq!(select_addresses(&table, Some(0)), vec![ip(4), ip(6)]);
    assert_eq!(select_addresses(&table, Some(1)), vec![ip(5)]);
    assert_eq!(select_addresses(&table, None), vec![ip(4), ip(5), ip(6)]);
}

#[test]
fn update_rewrites_address_and_flag() {
    let mut table = LeaseTable::new();
    insert_entry(&mut table, mac(1), ip(4));
    update_entry(&mut table, mac(1), ip(9), 1);
    assert_eq!(select_entry(&table, mac(1)), Some(ip(9)));
    assert_eq!(select_addresses(&table, Some(1)), vec![ip(9)]);
    // undelete on renewal
    update_entry(&mut table, mac(1), ip(9), 0);
    assert_eq!(select_addresses(&table, Some(0)), vec![ip(9)]);
}

#[test]
fn count_decides_insert_versus_update() {
    let mut table = LeaseTable::new();
    assert_eq!(count_records_by_macaddr(&table, mac(1)), 0);
    insert_entry(&mut table, mac(1), ip(4));
    assert_eq!(count_records_by_macaddr(&table, mac(1)), 1);
    delete_entry(&mut table, mac(1));
    // a deleted row still counts, so no second row is ever inserted
    assert_eq!(count_records_by_macaddr(&table, mac(1)), 1);
    insert_entry(&mut table, mac(2), ip(5));
    assert_eq!(count_records_by_macaddr(&table, mac(1)), 1);
    assert_eq!(count_records_by_macaddr(&table, mac(2)), 1);
}

#[test]
fn restore_rebuilds_a_persisted_ledger() {
    let mut table = LeaseTable::new();
    table.restore_entry(LeaseEntry { mac: mac(1), ip: ip(4), state: LeaseState::Released });
    table.restore_entry(LeaseEntry { mac: mac(2), ip: ip(5), state: LeaseState::Active });
    assert_eq!(select_addresses(&table, Some(0)), vec![ip(5)]);
    assert_eq!(select_entry(&table, mac(1)), Some(ip(4)));
}
