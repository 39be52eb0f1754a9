use dhcp_core::pool::AddressPool;
use dhcp_core::Ipv4;

fn ip(d: u8) -> Ipv4 {
    Ipv4::from_octets(10, 0, 0, d)
}

#[test]
fn pick_available_takes_from_the_tail() {
    let mut pool = AddressPool::from_entries(vec![ip(6), ip(5), ip(4)]);
    assert_eq!(pool.pick_available(), Some(ip(4)));
    assert_eq!(pool.pick_available(), Some(ip(5)));
    assert_eq!(pool.pick_available(), Some(ip(6)));
}

#[test]
fn exhausted_pool_yields_none() {
    let mut pool = AddressPool::from_entries(vec![ip(4)]);
    assert_eq!(pool.pick_available(), Some(ip(4)));
    assert_eq!(pool.pick_available(), None);
    assert_eq!(pool.pick_available(), None);
    assert_eq!(pool.len(), 0);
}

#[test]
fn pick_specified_present_and_absent() {
    let mut pool = AddressPool::from_entries(vec![ip(6), ip(5), ip(4)]);
    assert_eq!(pool.pick_specified(ip(5)), Some(ip(5)));
    assert_eq!(pool.len(), 2);
    assert_eq!(pool.pick_specified(ip(5)), None);
    assert_eq!(pool.len(), 2);
}

#[test]
fn release_goes_to_the_front() {
    let mut pool = AddressPool::from_entries(vec![ip(6), ip(5)]);
    pool.release(ip(9));
    // the released address is now the last to be handed out
    assert_eq!(pool.pick_available(), Some(ip(5)));
    assert_eq!(pool.pick_available(), Some(ip(6)));
    assert_eq!(pool.pick_available(), Some(ip(9)));
}

#[test]
fn double_release_does_not_duplicate() {
    let mut pool = AddressPool::from_entries(vec![ip(6), ip(5)]);
    pool.release(ip(9));
    let after_one = pool.len();
    pool.release(ip(9));
    assert_eq!(pool.len(), after_one);
}

#[test]
fn conservation_over_a_history_of_operations() {
    let initial = vec![ip(7), ip(6), ip(5), ip(4)];
    let mut pool = AddressPool::from_entries(initial.clone());
    let mut taken: Vec<Ipv4> = Vec::new();

    taken.push(pool.pick_available().unwrap());
    taken.push(pool.pick_specified(ip(6)).unwrap());
    let back = taken.remove(0);
    pool.release(back);
    taken.push(pool.pick_available().unwrap());

    // drain what is left and compare the multiset with the initial one
    let mut all: Vec<u32> = taken.iter().map(|a| a.bits).collect();
    while let Some(a) = pool.pick_available() {
        all.push(a.bits);
    }
    all.sort();
    let mut expected: Vec<u32> = initial.iter().map(|a| a.bits).collect();
    expected.sort();
    assert_eq!(all, expected);
}
