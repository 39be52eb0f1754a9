//! The lease ledger: MAC-to-IP bindings with logical deletion. Rows are
//! only ever appended or rewritten in place, never removed, so history is
//! preserved; a lookup sees deleted rows too, which lets a renewing client
//! be offered its previous address after a release.

use vstd::prelude::*;

use crate::addr::Ipv4;
use crate::addr::Mac;

verus! {

/// Lifecycle of a binding: in force, or logically deleted but retained.
#[derive(Clone, Copy, PartialEq, Eq, Structural, Debug)]
pub enum LeaseState {
    Active,
    Released,
}

/// One row of the ledger.
#[derive(Clone, Copy, PartialEq, Eq, Structural, Debug)]
pub struct LeaseEntry {
    pub mac: Mac,
    pub ip: Ipv4,
    pub state: LeaseState,
}

/// The deletion flag a row carries in storage: 0 while active, 1 once
/// logically deleted.
pub open spec fn state_flag(s: LeaseState) -> u8 {
    match s {
        LeaseState::Active => 0,
        LeaseState::Released => 1,
    }
}

/// The state a stored flag denotes; any nonzero flag means deleted.
pub open spec fn state_of_flag(d: u8) -> LeaseState {
    if d == 0 {
        LeaseState::Active
    } else {
        LeaseState::Released
    }
}

/// The addresses of the rows whose deletion flag matches `deleted`, in row
/// order; `None` matches every row.
pub open spec fn addresses_with_flag(s: Seq<LeaseEntry>, deleted: Option<u8>) -> Seq<Ipv4>
    decreases s.len(),
{
    if s.len() == 0 {
        Seq::empty()
    } else {
        let rest = addresses_with_flag(s.drop_last(), deleted);
        if match deleted {
            Option::None => true,
            Option::Some(d) => state_flag(s.last().state) == d,
        } {
            rest.push(s.last().ip)
        } else {
            rest
        }
    }
}

/// The address of the most recent row bound to `mac`, deleted rows
/// included; nothing when the ledger has no row for `mac`.
pub open spec fn lookup_mac(s: Seq<LeaseEntry>, mac: Mac) -> Option<Ipv4>
    decreases s.len(),
{
    if s.len() == 0 {
        Option::None
    } else if s.last().mac == mac {
        Option::Some(s.last().ip)
    } else {
        lookup_mac(s.drop_last(), mac)
    }
}

/// How many rows are bound to `mac`, deleted rows included.
pub open spec fn count_mac(s: Seq<LeaseEntry>, mac: Mac) -> int
    decreases s.len(),
{
    if s.len() == 0 {
        0
    } else {
        count_mac(s.drop_last(), mac) + if s.last().mac == mac {
            1int
        } else {
            0int
        }
    }
}

/// Every row of `mac` rewritten to carry `ip` and `state`; other rows are
/// untouched.
pub open spec fn update_mac(s: Seq<LeaseEntry>, mac: Mac, ip: Ipv4, state: LeaseState) -> Seq<
    LeaseEntry,
> {
    s.map_values(
        |e: LeaseEntry|
            if e.mac == mac {
                LeaseEntry { mac: e.mac, ip, state }
            } else {
                e
            },
    )
}

/// Every row of `mac` marked deleted; each keeps its address.
pub open spec fn mark_deleted(s: Seq<LeaseEntry>, mac: Mac) -> Seq<LeaseEntry> {
    s.map_values(
        |e: LeaseEntry|
            if e.mac == mac {
                LeaseEntry { mac: e.mac, ip: e.ip, state: LeaseState::Released }
            } else {
                e
            },
    )
}

/// The ledger of bindings. Its view is the sequence of rows in insertion
/// order.
pub struct LeaseTable {
    entries: Vec<LeaseEntry>,
}

impl View for LeaseTable {
    type V = Seq<LeaseEntry>;

    closed spec fn view(&self) -> Seq<LeaseEntry> {
        self.entries@
    }
}

impl LeaseTable {
    /// An empty ledger.
    pub fn new() -> (r: LeaseTable)
        ensures
            r@ == Seq::<LeaseEntry>::empty(),
    {
        LeaseTable { entries: Vec::new() }
    }

    /// Appends a row as it was persisted, whatever its state; used to
    /// reload a stored ledger at startup.
    pub fn restore_entry(&mut self, entry: LeaseEntry)
        ensures
            final(self)@ == old(self)@.push(entry),
    {
        self.entries.push(entry);
    }
}

/// The addresses on lease, optionally narrowed by the deletion flag:
/// `Some(0)` gives the active bindings, `Some(1)` the released ones,
/// `None` all of them.
pub fn select_addresses(table: &LeaseTable, deleted: Option<u8>) -> (r: Vec<Ipv4>)
    ensures
        r@ == addresses_with_flag(table@, deleted),
{
    let n = table.entries.len();
    let mut r: Vec<Ipv4> = Vec::new();
    let mut i: usize = 0;
    while i < n
        invariant
            n == table@.len(),
            i <= n,
            r@ == addresses_with_flag(table@.take(i as int), deleted),
        decreases n - i,
    {
        let e = table.entries[i];
        let keep = match deleted {
            Option::None => true,
            Option::Some(d) => {
                let flag: u8 = match e.state {
                    LeaseState::Active => 0,
                    LeaseState::Released => 1,
                };
                flag == d
            },
        };
        if keep {
            r.push(e.ip);
        }
        i = i + 1;
        proof {
            let t = table@.take(i as int);
            assert(t.drop_last() =~= table@.take(i as int - 1));
            assert(t.last() == table@[i as int - 1]);
        }
    }
    proof {
        assert(table@.take(n as int) =~= table@);
    }
    r
}

/// Appends a fresh active binding of `mac_addr` to `ip_addr`. Guarding
/// against a duplicate row for the MAC is the caller's business (see
/// `count_records_by_macaddr`), as is running this inside the same
/// transaction as the pool operation that consumed the address.
pub fn insert_entry(table: &mut LeaseTable, mac_addr: Mac, ip_addr: Ipv4)
    ensures
        final(table)@ == old(table)@.push(
            LeaseEntry { mac: mac_addr, ip: ip_addr, state: LeaseState::Active },
        ),
{
    table.entries.push(LeaseEntry { mac: mac_addr, ip: ip_addr, state: LeaseState::Active });
}

/// The address most recently bound to `mac_addr`, including logically
/// deleted rows, so a renewing client can be offered its prior address
/// even after a release.
pub fn select_entry(table: &LeaseTable, mac_addr: Mac) -> (r: Option<Ipv4>)
    ensures
        r == lookup_mac(table@, mac_addr),
{
    let mut i: usize = table.entries.len();
    proof {
        assert(table@.take(i as int) =~= table@);
    }
    while i > 0
        invariant
            i <= table@.len(),
            lookup_mac(table@, mac_addr) == lookup_mac(table@.take(i as int), mac_addr),
        decreases i,
    {
        i = i - 1;
        let e = table.entries[i];
        if e.mac == mac_addr {
            proof {
                let t = table@.take(i as int + 1);
                assert(t.last() == table@[i as int]);
            }
            return Some(e.ip);
        }
        proof {
            let t = table@.take(i as int + 1);
            assert(t.last() == table@[i as int]);
            assert(t.drop_last() =~= table@.take(i as int));
        }
    }
    proof {
        assert(table@.take(0) =~= Seq::<LeaseEntry>::empty());
    }
    None
}

/// Rewrites every row of `mac_addr` to the given address and deletion
/// flag; used both for reassignment and for undeleting on renewal.
pub fn update_entry(table: &mut LeaseTable, mac_addr: Mac, ip_addr: Ipv4, deleted: u8)
    ensures
        final(table)@ == update_mac(old(table)@, mac_addr, ip_addr, state_of_flag(deleted)),
{
    let ghost orig: Seq<LeaseEntry> = table@;
    let n = table.entries.len();
    let state = if deleted == 0 {
        LeaseState::Active
    } else {
        LeaseState::Released
    };
    let mut i: usize = 0;
    while i < n
        invariant
            n == table@.len(),
            n == orig.len(),
            i <= n,
            state == state_of_flag(deleted),
            forall|j: int| 0 <= j < i ==> table@[j] == update_mac(orig, mac_addr, ip_addr, state)[j],
            forall|j: int| i <= j < n ==> table@[j] == orig[j],
        decreases n - i,
    {
        if table.entries[i].mac == mac_addr {
            let e = table.entries[i];
            table.entries[i] = LeaseEntry { mac: e.mac, ip: ip_addr, state };
        }
        proof {
            assert(update_mac(orig, mac_addr, ip_addr, state)[i as int] == (if orig[i as int].mac
                == mac_addr {
                LeaseEntry { mac: orig[i as int].mac, ip: ip_addr, state }
            } else {
                orig[i as int]
            }));
        }
        i = i + 1;
    }
    proof {
        assert(table@ =~= update_mac(orig, mac_addr, ip_addr, state_of_flag(deleted)));
    }
}

/// Marks every row of `mac_addr` logically deleted; the rows and their
/// addresses stay in the ledger.
pub fn delete_entry(table: &mut LeaseTable, mac_addr: Mac)
    ensures
        final(table)@ == mark_deleted(old(table)@, mac_addr),
{
    let ghost orig: Seq<LeaseEntry> = table@;
    let n = table.entries.len();
    let mut i: usize = 0;
    while i < n
        invariant
            n == table@.len(),
            n == orig.len(),
            i <= n,
            forall|j: int| 0 <= j < i ==> table@[j] == mark_deleted(orig, mac_addr)[j],
            forall|j: int| i <= j < n ==> table@[j] == orig[j],
        decreases n - i,
    {
        if table.entries[i].mac == mac_addr {
            let e = table.entries[i];
            table.entries[i] = LeaseEntry { mac: e.mac, ip: e.ip, state: LeaseState::Released };
        }
        proof {
            assert(mark_deleted(orig, mac_addr)[i as int] == (if orig[i as int].mac == mac_addr {
                LeaseEntry {
                    mac: orig[i as int].mac,
                    ip: orig[i as int].ip,
                    state: LeaseState::Released,
                }
            } else {
                orig[i as int]
            }));
        }
        i = i + 1;
    }
    proof {
        assert(table@ =~= mark_deleted(orig, mac_addr));
    }
}

/// How many rows, deleted or not, are bound to `mac_addr`; the caller
/// inserts a fresh row when this is zero and updates the existing one
/// otherwise, which keeps one row per client without a storage-level
/// uniqueness constraint.
pub fn count_records_by_macaddr(table: &LeaseTable, mac_addr: Mac) -> (r: usize)
    ensures
        r == count_mac(table@, mac_addr),
{
    let n = table.entries.len();
    let mut c: usize = 0;
    let mut i: usize = 0;
    while i < n
        invariant
            n == table@.len(),
            i <= n,
            c == count_mac(table@.take(i as int), mac_addr),
            c <= i,
        decreases n - i,
    {
        if table.entries[i].mac == mac_addr {
            c = c + 1;
        }
        i = i + 1;
        proof {
            let t = table@.take(i as int);
            assert(t.drop_last() =~= table@.take(i as int - 1));
            assert(t.last() == table@[i as int - 1]);
        }
    }
    proof {
        assert(table@.take(n as int) =~= table@);
    }
    c
}

/// Renewal after release: marking a client's rows deleted never changes
/// what a lookup of that client returns — the prior address can still be
/// offered again.
pub proof fn lemma_lookup_survives_deletion(s: Seq<LeaseEntry>, mac: Mac)
    ensures
        lookup_mac(mark_deleted(s, mac), mac) == lookup_mac(s, mac),
    decreases s.len(),
{
    if s.len() > 0 {
        let m = mark_deleted(s, mac);
        assert(m.len() == s.len());
        assert(m.last() == (if s.last().mac == mac {
            LeaseEntry { mac: s.last().mac, ip: s.last().ip, state: LeaseState::Released }
        } else {
            s.last()
        }));
        if s.last().mac != mac {
            assert(m.drop_last() =~= mark_deleted(s.drop_last(), mac));
            lemma_lookup_survives_deletion(s.drop_last(), mac);
        }
    }
}

} // verus!
