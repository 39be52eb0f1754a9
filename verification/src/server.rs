//! The server aggregate: the static network configuration, the pool of
//! assignable addresses seeded from the network range minus the reserved
//! and still-leased addresses, and the three atomic pool operations.

use vstd::prelude::*;

use crate::addr::be_bytes_of_u32;
use crate::addr::make_big_endian_vec_from_u32;
use crate::addr::Ipv4;
use crate::addr::Mac;
use crate::lease::addresses_with_flag;
use crate::lease::mark_deleted;
use crate::lease::LeaseEntry;
use crate::lease::LeaseState;
use crate::pool::pick_available_spec;
use crate::pool::pick_specified_spec;
use crate::pool::release_spec;
use crate::pool::remove_first;
use crate::pool::vec_contains;
use crate::pool::AddressPool;

verus! {

/// Number of addresses in a block with the given prefix length.
pub open spec fn block_size(p: int) -> int {
    (1u64 << ((32 - p) as u64)) as int
}

/// The subnet mask with `p` leading one bits.
pub open spec fn prefix_mask(p: int) -> u32 {
    !((((1u64 << ((32 - p) as u64)) - 1) as u32))
}

/// The lowest address of the block that `addr` belongs to.
pub open spec fn network_base(addr: Ipv4, p: int) -> u32 {
    addr.bits & prefix_mask(p)
}

/// The highest address of the block: the broadcast address.
pub open spec fn broadcast_of(addr: Ipv4, p: int) -> Ipv4 {
    Ipv4 { bits: network_base(addr, p) | ((block_size(p) - 1) as u32) }
}

/// The addresses withheld from the pool: those still leased, plus the five
/// statically reserved ones (network, gateway, server, DNS, broadcast).
pub open spec fn used_addresses(
    leased: Seq<Ipv4>,
    network_addr: Ipv4,
    default_gateway: Ipv4,
    dhcp_server_addr: Ipv4,
    dns_server_addr: Ipv4,
    broadcast: Ipv4,
) -> Seq<Ipv4> {
    leased + seq![network_addr, default_gateway, dhcp_server_addr, dns_server_addr, broadcast]
}

/// The first `count` addresses of the block at `base`, in ascending order,
/// with every member of `used` left out.
pub open spec fn available(base: u32, count: int, used: Seq<Ipv4>) -> Seq<Ipv4>
    decreases count,
{
    if count <= 0 {
        Seq::empty()
    } else {
        let rest = available(base, count - 1, used);
        let a = Ipv4 { bits: (base + count - 1) as u32 };
        if used.contains(a) {
            rest
        } else {
            rest.push(a)
        }
    }
}

/// The pool a freshly started server holds: every address of the network
/// block that is neither reserved nor still leased, ascending, then
/// reversed so that the lowest addresses leave the pool first.
pub open spec fn initial_pool(
    network_addr: Ipv4,
    p: int,
    leased: Seq<Ipv4>,
    default_gateway: Ipv4,
    dhcp_server_addr: Ipv4,
    dns_server_addr: Ipv4,
) -> Seq<Ipv4> {
    available(
        network_base(network_addr, p),
        block_size(p),
        used_addresses(
            leased,
            network_addr,
            default_gateway,
            dhcp_server_addr,
            dns_server_addr,
            broadcast_of(network_addr, p),
        ),
    ).reverse()
}

/// The prefix length whose mask is `subnet_mask`, or nothing when the mask
/// is not a run of leading ones.
pub fn mask_to_prefix(subnet_mask: Ipv4) -> (r: Option<u8>)
    ensures
        match r {
            Some(p) => p <= 32 && subnet_mask.bits == prefix_mask(p as int),
            None => forall|p: int| 0 <= p <= 32 ==> subnet_mask.bits != prefix_mask(p),
        },
{
    let mut p: u8 = 0;
    while p <= 32
        invariant
            p <= 33,
            forall|j: int| 0 <= j < p ==> subnet_mask.bits != prefix_mask(j),
        decreases 33 - p,
    {
        let shift: u64 = (32 - p) as u64;
        proof {
            assert((1u64 << shift) >= 1 && (1u64 << shift) - 1 <= 0xffffffffu64) by (bit_vector)
                requires
                    shift <= 32u64,
            ;
        }
        let mask: u32 = !(((1u64 << shift) - 1) as u32);
        if subnet_mask.bits == mask {
            return Some(p);
        }
        p = p + 1;
    }
    None
}

/// The server aggregate: owns the address pool and the static network
/// configuration, immutable after startup.
pub struct DhcpServer {
    pub address_pool: AddressPool,
    pub network_addr: Ipv4,
    pub prefix: u8,
    pub server_address: Ipv4,
    pub default_gateway: Ipv4,
    pub subnet_mask: Ipv4,
    pub dns_server: Ipv4,
    pub lease_time: Vec<u8>,
}

impl DhcpServer {
    /// The addresses currently available for assignment, in pool order:
    /// the next to be handed out is the last.
    pub open spec fn pool(self) -> Seq<Ipv4> {
        self.address_pool@
    }

    /// The static configuration of `other` equals this one's.
    pub open spec fn same_config(self, other: Self) -> bool {
        &&& other.network_addr == self.network_addr
        &&& other.prefix == self.prefix
        &&& other.server_address == self.server_address
        &&& other.default_gateway == self.default_gateway
        &&& other.subnet_mask == self.subnet_mask
        &&& other.dns_server == self.dns_server
        &&& other.lease_time@ == self.lease_time@
    }

    /// Builds a server from the already-parsed static configuration and
    /// the list of addresses still actively leased. A subnet mask that is
    /// not a run of leading ones is a fatal configuration error, reported
    /// as `None`.
    pub fn new(
        network_addr: Ipv4,
        subnet_mask: Ipv4,
        server_address: Ipv4,
        default_gateway: Ipv4,
        dns_server: Ipv4,
        lease_time_secs: u32,
        leased: &Vec<Ipv4>,
    ) -> (r: Option<DhcpServer>)
        ensures
            r is Some <==> (exists|p: int| 0 <= p <= 32 && subnet_mask.bits == prefix_mask(p)),
            match r {
                Some(s) => {
                    &&& s.network_addr == network_addr
                    &&& s.subnet_mask == subnet_mask
                    &&& s.server_address == server_address
                    &&& s.default_gateway == default_gateway
                    &&& s.dns_server == dns_server
                    &&& s.lease_time@ == be_bytes_of_u32(lease_time_secs)
                    &&& s.prefix <= 32 && subnet_mask.bits == prefix_mask(s.prefix as int)
                    &&& s.pool() == initial_pool(
                        network_addr,
                        s.prefix as int,
                        leased@,
                        default_gateway,
                        server_address,
                        dns_server,
                    )
                },
                None => true,
            },
    {
        let prefix = match mask_to_prefix(subnet_mask) {
            Some(p) => p,
            None => {
                return None;
            },
        };
        let pool = Self::init_address_pool(
            leased,
            network_addr,
            prefix,
            default_gateway,
            server_address,
            dns_server,
        );
        let lease_time = make_big_endian_vec_from_u32(lease_time_secs);
        Some(
            DhcpServer {
                address_pool: AddressPool::from_entries(pool),
                network_addr,
                prefix,
                server_address,
                default_gateway,
                subnet_mask,
                dns_server,
                lease_time,
            },
        )
    }

    /// Seeds the pool for a new server: every address of the network block
    /// except the reserved and still-leased ones, lowest first at the tail
    /// so that assignment starts from the lowest address.
    pub fn init_address_pool(
        leased: &Vec<Ipv4>,
        network_addr: Ipv4,
        prefix: u8,
        default_gateway: Ipv4,
        dhcp_server_addr: Ipv4,
        dns_server_addr: Ipv4,
    ) -> (r: Vec<Ipv4>)
        requires
            prefix <= 32,
        ensures
            r@ == initial_pool(
                network_addr,
                prefix as int,
                leased@,
                default_gateway,
                dhcp_server_addr,
                dns_server_addr,
            ),
    {
        let nbits: u32 = network_addr.bits;
        let shift: u64 = (32 - prefix) as u64;
        proof {
            assert((1u64 << shift) >= 1 && (1u64 << shift) - 1 <= 0xffffffffu64) by (bit_vector)
                requires
                    shift <= 32u64,
            ;
        }
        let low: u64 = (1u64 << shift) - 1;
        let mask: u32 = !(low as u32);
        let base: u32 = nbits & mask;
        let size: u64 = 1u64 << shift;
        proof {
            assert(((nbits & !((((1u64 << ((32 - prefix) as u64)) - 1) as u32))) as u64) + (1u64
                << ((32 - prefix) as u64)) <= 0x1_0000_0000u64) by (bit_vector)
                requires
                    prefix <= 32u8,
            ;
        }
        let bcast = Ipv4 { bits: base | (low as u32) };

        let mut used: Vec<Ipv4> = Vec::new();
        let nl = leased.len();
        let mut i: usize = 0;
        while i < nl
            invariant
                nl == leased@.len(),
                i <= nl,
                used@ == leased@.take(i as int),
            decreases nl - i,
        {
            used.push(leased[i]);
            i = i + 1;
        }
        used.push(network_addr);
        used.push(default_gateway);
        used.push(dhcp_server_addr);
        used.push(dns_server_addr);
        used.push(bcast);
        proof {
            assert(leased@.take(nl as int) =~= leased@);
            assert(used@ =~= used_addresses(
                leased@,
                network_addr,
                default_gateway,
                dhcp_server_addr,
                dns_server_addr,
                broadcast_of(network_addr, prefix as int),
            ));
        }
        let ghost used_seq: Seq<Ipv4> = used@;

        let mut pool_asc: Vec<Ipv4> = Vec::new();
        let mut k: u64 = 0;
        while k < size
            invariant
                k <= size,
                size == block_size(prefix as int),
                base == network_base(network_addr, prefix as int),
                base as int + size as int <= 0x1_0000_0000,
                used@ == used_seq,
                pool_asc@ == available(base, k as int, used_seq),
            decreases size - k,
        {
            let a = Ipv4 { bits: (base as u64 + k) as u32 };
            if !vec_contains(&used, a) {
                pool_asc.push(a);
            }
            k = k + 1;
            proof {
                assert(pool_asc@ =~= available(base, k as int, used_seq));
            }
        }

        let mut pool: Vec<Ipv4> = Vec::new();
        let asc_len = pool_asc.len();
        let mut j: usize = asc_len;
        while j > 0
            invariant
                asc_len == pool_asc@.len(),
                j <= asc_len,
                pool@ == pool_asc@.subrange(j as int, asc_len as int).reverse(),
            decreases j,
        {
            j = j - 1;
            pool.push(pool_asc[j]);
            proof {
                assert(pool@ =~= pool_asc@.subrange(j as int, asc_len as int).reverse());
            }
        }
        proof {
            assert(pool_asc@.subrange(0, asc_len as int) =~= pool_asc@);
        }
        pool
    }

    /// Removes and returns the last pool entry — the lowest address still
    /// available. An exhausted pool yields `None`, a normal outcome.
    pub fn pick_available_ip(&mut self) -> (r: Option<Ipv4>)
        ensures
            (final(self).pool(), r) == pick_available_spec(old(self).pool()),
            old(self).same_config(*final(self)),
    {
        self.address_pool.pick_available()
    }

    /// Removes and returns the requested address if it is still in the
    /// pool; `None` when it is absent (already assigned or never poolable).
    pub fn pick_specified_ip(&mut self, requested_ip: Ipv4) -> (r: Option<Ipv4>)
        ensures
            (final(self).pool(), r) == pick_specified_spec(old(self).pool(), requested_ip),
            old(self).same_config(*final(self)),
    {
        self.address_pool.pick_specified(requested_ip)
    }

    /// Gives an address back at the front of the pool, so its reuse is
    /// delayed as long as possible; releasing an address that is already a
    /// pool member changes nothing.
    pub fn release_address(&mut self, released_ip: Ipv4)
        ensures
            final(self).pool() == release_spec(old(self).pool(), released_ip),
            old(self).same_config(*final(self)),
    {
        self.address_pool.release(released_ip)
    }
}

/// `a` is the address of some active (non-deleted) row of the ledger.
pub open spec fn active_leased(s: Seq<LeaseEntry>, a: Ipv4) -> bool {
    exists|i: int| 0 <= i < s.len() && s[i].state == LeaseState::Active && s[i].ip == a
}

/// Mutual exclusivity: no address is at once a pool member and an active
/// lease.
pub open spec fn pool_leases_disjoint(pool: Seq<Ipv4>, s: Seq<LeaseEntry>) -> bool {
    forall|a: Ipv4| pool.contains(a) ==> !active_leased(s, a)
}

/// The address of an active row is among the addresses selected with the
/// active flag.
proof fn lemma_active_in_selected(s: Seq<LeaseEntry>, a: Ipv4)
    requires
        active_leased(s, a),
    ensures
        addresses_with_flag(s, Some(0u8)).contains(a),
    decreases s.len(),
{
    let i = choose|i: int|
        0 <= i < s.len() && s[i].state == LeaseState::Active && s[i].ip == a;
    let sel = addresses_with_flag(s, Some(0u8));
    if i == s.len() - 1 {
        assert(sel.last() == a);
    } else {
        assert(s.drop_last()[i] == s[i]);
        assert(active_leased(s.drop_last(), a));
        lemma_active_in_selected(s.drop_last(), a);
        let rest = addresses_with_flag(s.drop_last(), Some(0u8));
        let k = choose|k: int| 0 <= k < rest.len() && rest[k] == a;
        if sel != rest {
            assert(sel == rest.push(s.last().ip));
            assert(sel[k] == a);
        }
    }
}

/// No address withheld as used ever appears among the available ones.
proof fn lemma_available_not_used(base: u32, count: int, used: Seq<Ipv4>)
    ensures
        forall|a: Ipv4| #[trigger]
            available(base, count, used).contains(a) ==> !used.contains(a),
    decreases count,
{
    if count > 0 {
        lemma_available_not_used(base, count - 1, used);
        let rest = available(base, count - 1, used);
        let x = Ipv4 { bits: (base + count - 1) as u32 };
        let avail = available(base, count, used);
        assert forall|a: Ipv4| #[trigger] avail.contains(a) implies !used.contains(a) by {
            let k = choose|k: int| 0 <= k < avail.len() && avail[k] == a;
            if !used.contains(x) && k == avail.len() - 1 {
                assert(a == x);
            } else {
                assert(rest[k] == a);
                assert(rest.contains(a));
            }
        }
    }
}

/// Reversal keeps membership.
proof fn lemma_reverse_contains(s: Seq<Ipv4>, a: Ipv4)
    ensures
        s.reverse().contains(a) <==> s.contains(a),
{
    if s.contains(a) {
        let i = choose|i: int| 0 <= i < s.len() && s[i] == a;
        assert(s.reverse()[s.len() - 1 - i] == a);
    }
    if s.reverse().contains(a) {
        let i = choose|i: int| 0 <= i < s.reverse().len() && s.reverse()[i] == a;
        assert(s[s.len() - 1 - i] == a);
    }
}

/// A freshly seeded pool is disjoint from the active rows of the ledger it
/// was seeded against: mutual exclusivity holds from the start.
pub proof fn lemma_initial_pool_disjoint(
    network_addr: Ipv4,
    p: int,
    s: Seq<LeaseEntry>,
    default_gateway: Ipv4,
    dhcp_server_addr: Ipv4,
    dns_server_addr: Ipv4,
)
    ensures
        pool_leases_disjoint(
            initial_pool(
                network_addr,
                p,
                addresses_with_flag(s, Some(0u8)),
                default_gateway,
                dhcp_server_addr,
                dns_server_addr,
            ),
            s,
        ),
{
    let leased = addresses_with_flag(s, Some(0u8));
    let used = used_addresses(
        leased,
        network_addr,
        default_gateway,
        dhcp_server_addr,
        dns_server_addr,
        broadcast_of(network_addr, p),
    );
    let avail = available(network_base(network_addr, p), block_size(p), used);
    let pool = initial_pool(
        network_addr,
        p,
        leased,
        default_gateway,
        dhcp_server_addr,
        dns_server_addr,
    );
    lemma_available_not_used(network_base(network_addr, p), block_size(p), used);
    assert forall|a: Ipv4| pool.contains(a) implies !active_leased(s, a) by {
        lemma_reverse_contains(avail, a);
        assert(avail.contains(a));
        if active_leased(s, a) {
            lemma_active_in_selected(s, a);
            let k = choose|k: int| 0 <= k < leased.len() && leased[k] == a;
            assert(used[k] == a);
            assert(used.contains(a));
        }
    }
}

/// Every available address lies in the block, and none repeats.
proof fn lemma_available_bounds(base: u32, count: int, used: Seq<Ipv4>)
    requires
        base + count <= 0x1_0000_0000,
    ensures
        forall|k: int|
            0 <= k < available(base, count, used).len() ==> base <= #[trigger] available(
                base,
                count,
                used,
            )[k].bits < base + count,
        available(base, count, used).no_duplicates(),
    decreases count,
{
    if count > 0 {
        lemma_available_bounds(base, count - 1, used);
        let rest = available(base, count - 1, used);
        let x = Ipv4 { bits: (base + count - 1) as u32 };
        assert(x.bits == base + count - 1);
        if !used.contains(x) {
            let avail = available(base, count, used);
            assert(avail == rest.push(x));
            assert forall|i: int, j: int| 0 <= i < j < avail.len() implies avail[i] != avail[j] by {
                if j < rest.len() {
                    assert(avail[i] == rest[i] && avail[j] == rest[j]);
                } else {
                    assert(avail[j] == x);
                    assert(avail[i] == rest[i]);
                    assert(rest[i].bits < base + count - 1);
                }
            }
        }
    }
}

/// A freshly seeded pool holds no address twice.
pub proof fn lemma_initial_pool_no_duplicates(
    network_addr: Ipv4,
    p: int,
    leased: Seq<Ipv4>,
    default_gateway: Ipv4,
    dhcp_server_addr: Ipv4,
    dns_server_addr: Ipv4,
)
    requires
        0 <= p <= 32,
    ensures
        initial_pool(
            network_addr,
            p,
            leased,
            default_gateway,
            dhcp_server_addr,
            dns_server_addr,
        ).no_duplicates(),
{
    broadcast use vstd::seq_lib::group_to_multiset_ensures;

    let sh = (32 - p) as u64;
    let nbits = network_addr.bits;
    assert(((nbits & !((((1u64 << sh) - 1) as u32))) as u64) + (1u64 << sh)
        <= 0x1_0000_0000u64) by (bit_vector)
        requires
            sh <= 32u64,
    ;
    let used = used_addresses(
        leased,
        network_addr,
        default_gateway,
        dhcp_server_addr,
        dns_server_addr,
        broadcast_of(network_addr, p),
    );
    let base = network_base(network_addr, p);
    let avail = available(base, block_size(p), used);
    lemma_available_bounds(base, block_size(p), used);
    avail.lemma_multiset_has_no_duplicates();
    avail.lemma_reverse_to_multiset();
    avail.reverse().lemma_multiset_has_no_duplicates_conv();
}

/// Taking any available address removes it from the pool for good, as long
/// as the pool holds no duplicates; the remainder still holds none.
pub proof fn lemma_pick_available_removes(pool: Seq<Ipv4>)
    requires
        pool.no_duplicates(),
        pool.len() > 0,
    ensures
        !pick_available_spec(pool).0.contains(pool.last()),
        pick_available_spec(pool).0.no_duplicates(),
{
    let rest = pool.drop_last();
    if rest.contains(pool.last()) {
        let i = choose|i: int| 0 <= i < rest.len() && rest[i] == pool.last();
        assert(pool[i] == pool[pool.len() - 1]);
    }
}

/// Taking a requested address removes it from the pool for good, as long
/// as the pool holds no duplicates; the remainder still holds none.
pub proof fn lemma_pick_specified_removes(pool: Seq<Ipv4>, a: Ipv4)
    requires
        pool.no_duplicates(),
        pool.contains(a),
    ensures
        !pick_specified_spec(pool, a).0.contains(a),
        pick_specified_spec(pool, a).0.no_duplicates(),
{
    pool.index_of_first_ensures(a);
    let i = pool.index_of_first(a)->Some_0;
    let rest = pool.remove(i);
    assert(remove_first(pool, a) == rest);
    if rest.contains(a) {
        let k = choose|k: int| 0 <= k < rest.len() && rest[k] == a;
        if k < i {
            assert(pool[k] == pool[i]);
        } else {
            assert(pool[k + 1] == pool[i]);
        }
    }
    assert forall|x: int, y: int| 0 <= x < y < rest.len() implies rest[x] != rest[y] by {
        let px: int = if x < i {
            x
        } else {
            x + 1
        };
        let py: int = if y < i {
            y
        } else {
            y + 1
        };
        assert(rest[x] == pool[px] && rest[y] == pool[py]);
    }
}

/// Releasing keeps the pool free of duplicates.
pub proof fn lemma_release_no_duplicates(pool: Seq<Ipv4>, a: Ipv4)
    requires
        pool.no_duplicates(),
    ensures
        release_spec(pool, a).no_duplicates(),
{
    if !pool.contains(a) {
        let r = seq![a] + pool;
        assert forall|x: int, y: int| 0 <= x < y < r.len() implies r[x] != r[y] by {
            if x == 0 {
                assert(r[y] == pool[y - 1]);
                assert(pool.contains(pool[y - 1]));
            } else {
                assert(r[x] == pool[x - 1] && r[y] == pool[y - 1]);
            }
        }
    }
}

/// Allocation preserves mutual exclusivity: once an address has left the
/// pool, recording its active lease keeps pool and ledger disjoint.
pub proof fn lemma_allocation_preserves_disjoint(
    pool: Seq<Ipv4>,
    s: Seq<LeaseEntry>,
    m: Mac,
    a: Ipv4,
)
    requires
        pool_leases_disjoint(pool, s),
        !pool.contains(a),
    ensures
        pool_leases_disjoint(
            pool,
            s.push(LeaseEntry { mac: m, ip: a, state: LeaseState::Active }),
        ),
{
    let s2 = s.push(LeaseEntry { mac: m, ip: a, state: LeaseState::Active });
    assert forall|x: Ipv4| pool.contains(x) implies !active_leased(s2, x) by {
        if active_leased(s2, x) {
            let i = choose|i: int|
                0 <= i < s2.len() && s2[i].state == LeaseState::Active && s2[i].ip == x;
            if i < s.len() {
                assert(s[i] == s2[i]);
                assert(active_leased(s, x));
            } else {
                assert(x == a);
            }
        }
    }
}

/// Release preserves mutual exclusivity: marking the client's rows deleted
/// and returning its address to the pool keeps pool and ledger disjoint,
/// provided every active row holding that address belongs to that client.
pub proof fn lemma_release_preserves_disjoint(
    pool: Seq<Ipv4>,
    s: Seq<LeaseEntry>,
    m: Mac,
    a: Ipv4,
)
    requires
        pool_leases_disjoint(pool, s),
        forall|i: int|
            0 <= i < s.len() && (#[trigger] s[i]).ip == a && s[i].state == LeaseState::Active
                ==> s[i].mac == m,
    ensures
        pool_leases_disjoint(release_spec(pool, a), mark_deleted(s, m)),
{
    let s2 = mark_deleted(s, m);
    let p2 = release_spec(pool, a);
    assert forall|x: Ipv4| p2.contains(x) implies !active_leased(s2, x) by {
        if active_leased(s2, x) {
            let i = choose|i: int|
                0 <= i < s2.len() && s2[i].state == LeaseState::Active && s2[i].ip == x;
            assert(s2[i] == (if s[i].mac == m {
                LeaseEntry { mac: s[i].mac, ip: s[i].ip, state: LeaseState::Released }
            } else {
                s[i]
            }));
            assert(s[i].mac != m);
            assert(s2[i] == s[i]);
            assert(active_leased(s, x));
            assert(x != a);
            if pool.contains(x) {
                assert(!active_leased(s, x));
            } else {
                let k = choose|k: int| 0 <= k < p2.len() && p2[k] == x;
                assert(p2 == seq![a] + pool);
                if k == 0 {
                    assert(x == a);
                } else {
                    assert(pool[k - 1] == x);
                    assert(pool.contains(x));
                }
            }
        }
    }
}

} // verus!
