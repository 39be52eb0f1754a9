//! The meaning of the three address-pool operations — take the last entry,
//! take a requested entry, give an entry back at the front — and the laws
//! they obey: no address is ever duplicated or lost, and releasing an
//! address twice is the same as releasing it once.

use vstd::prelude::*;

use vstd::multiset::group_multiset_axioms;
use vstd::multiset::Multiset;
use vstd::seq_lib::group_to_multiset_ensures;

use crate::addr::Ipv4;

verus! {

/// Taking any available address removes and returns the last pool entry;
/// an empty pool yields nothing and stays empty.
pub open spec fn pick_available_spec(pool: Seq<Ipv4>) -> (Seq<Ipv4>, Option<Ipv4>) {
    if pool.len() > 0 {
        (pool.drop_last(), Some(pool.last()))
    } else {
        (pool, None)
    }
}

/// `pool` with its first occurrence of `addr` removed; unchanged when
/// `addr` is not a member.
pub open spec fn remove_first(pool: Seq<Ipv4>, addr: Ipv4) -> Seq<Ipv4> {
    match pool.index_of_first(addr) {
        Some(i) => pool.remove(i),
        None => pool,
    }
}

/// Taking a requested address removes its first occurrence and returns it;
/// an absent address yields nothing and leaves the pool unchanged.
pub open spec fn pick_specified_spec(pool: Seq<Ipv4>, addr: Ipv4) -> (Seq<Ipv4>, Option<Ipv4>) {
    if pool.contains(addr) {
        (remove_first(pool, addr), Some(addr))
    } else {
        (pool, None)
    }
}

/// Releasing puts the address back at the front, so it is the last to be
/// handed out again; an address already in the pool is not duplicated.
pub open spec fn release_spec(pool: Seq<Ipv4>, addr: Ipv4) -> Seq<Ipv4> {
    if pool.contains(addr) {
        pool
    } else {
        seq![addr] + pool
    }
}

/// Removing the first occurrence of a member removes exactly one copy of it
/// and nothing else.
pub proof fn lemma_remove_first_multiset(pool: Seq<Ipv4>, addr: Ipv4)
    requires
        pool.contains(addr),
    ensures
        remove_first(pool, addr).to_multiset() == pool.to_multiset().remove(addr),
        remove_first(pool, addr).len() == pool.len() - 1,
{
    broadcast use group_to_multiset_ensures, group_multiset_axioms;

    pool.index_of_first_ensures(addr);
    let i = pool.index_of_first(addr)->Some_0;
    assert(pool.remove(i).to_multiset() =~= pool.to_multiset().remove(addr));
}

/// Releasing an address a second time changes nothing: the pool after two
/// releases of the same address equals the pool after one.
pub proof fn lemma_release_idempotent(pool: Seq<Ipv4>, addr: Ipv4)
    ensures
        release_spec(release_spec(pool, addr), addr) == release_spec(pool, addr),
{
    if !pool.contains(addr) {
        assert((seq![addr] + pool)[0] == addr);
        assert(release_spec(pool, addr).contains(addr));
    }
}

/// Whether `v` holds `a`.
pub(crate) fn vec_contains(v: &Vec<Ipv4>, a: Ipv4) -> (r: bool)
    ensures
        r == v@.contains(a),
{
    let n = v.len();
    let mut i: usize = 0;
    while i < n
        invariant
            n == v@.len(),
            i <= n,
            forall|j: int| 0 <= j < i ==> v@[j] != a,
        decreases n - i,
    {
        if v[i] == a {
            return true;
        }
        i = i + 1;
    }
    false
}

/// The set of currently-unassigned addresses, kept behind the three atomic
/// operations so that no caller ever touches the container itself. The
/// view is the sequence of pooled addresses; the next address to be handed
/// out is the last.
pub struct AddressPool {
    entries: Vec<Ipv4>,
}

impl View for AddressPool {
    type V = Seq<Ipv4>;

    closed spec fn view(&self) -> Seq<Ipv4> {
        self.entries@
    }
}

impl AddressPool {
    /// Wraps an already-seeded list of addresses as a pool.
    pub fn from_entries(entries: Vec<Ipv4>) -> (r: AddressPool)
        ensures
            r@ == entries@,
    {
        AddressPool { entries }
    }

    /// How many addresses are still available.
    pub fn len(&self) -> (r: usize)
        ensures
            r == self@.len(),
    {
        self.entries.len()
    }

    /// Removes and returns the last entry — the lowest address still
    /// available. An exhausted pool yields `None`, a normal outcome.
    pub fn pick_available(&mut self) -> (r: Option<Ipv4>)
        ensures
            (final(self)@, r) == pick_available_spec(old(self)@),
    {
        self.entries.pop()
    }

    /// Removes and returns the requested address if it is present; `None`
    /// when it is absent (already assigned or never in the pool).
    pub fn pick_specified(&mut self, requested_ip: Ipv4) -> (r: Option<Ipv4>)
        ensures
            (final(self)@, r) == pick_specified_spec(old(self)@, requested_ip),
    {
        let n = self.entries.len();
        let mut i: usize = 0;
        while i < n
            invariant
                *self == *old(self),
                n == self@.len(),
                i <= n,
                forall|j: int| 0 <= j < i ==> self@[j] != requested_ip,
            decreases n - i,
        {
            if self.entries[i] == requested_ip {
                proof {
                    let p = old(self)@;
                    p.index_of_first_ensures(requested_ip);
                    assert(p.contains(requested_ip));
                    let f = p.index_of_first(requested_ip)->Some_0;
                    assert(p[f] == requested_ip);
                    assert(f == i as int);
                    assert(remove_first(p, requested_ip) == p.remove(i as int));
                }
                return Some(self.entries.remove(i));
            }
            i = i + 1;
        }
        None
    }

    /// Puts an address back at the front, so its reuse is delayed as long
    /// as possible; an address already in the pool is not inserted twice.
    pub fn release(&mut self, released_ip: Ipv4)
        ensures
            final(self)@ == release_spec(old(self)@, released_ip),
    {
        if !vec_contains(&self.entries, released_ip) {
            self.entries.insert(0, released_ip);
            proof {
                assert(old(self)@.insert(0, released_ip) =~= seq![released_ip] + old(self)@);
            }
        }
    }
}

/// One operation against the pool, as a value, so that whole histories of
/// operations can be reasoned about.
pub enum PoolOp {
    PickAvailable,
    PickSpecified { addr: Ipv4 },
    Release { addr: Ipv4 },
}

/// The effect of one operation on the pool and on the multiset of addresses
/// currently checked out, exactly as the executable operations behave: a
/// release of an address already in the pool is a no-op.
pub open spec fn pool_step(pool: Seq<Ipv4>, taken: Multiset<Ipv4>, op: PoolOp) -> (
    Seq<Ipv4>,
    Multiset<Ipv4>,
) {
    match op {
        PoolOp::PickAvailable => {
            if pool.len() > 0 {
                (pool.drop_last(), taken.insert(pool.last()))
            } else {
                (pool, taken)
            }
        },
        PoolOp::PickSpecified { addr } => {
            if pool.contains(addr) {
                (remove_first(pool, addr), taken.insert(addr))
            } else {
                (pool, taken)
            }
        },
        PoolOp::Release { addr } => {
            if pool.contains(addr) {
                (pool, taken)
            } else {
                (seq![addr] + pool, taken.remove(addr))
            }
        },
    }
}

/// The pool and checked-out multiset after a whole history of operations.
pub open spec fn run_pool_ops(pool: Seq<Ipv4>, taken: Multiset<Ipv4>, ops: Seq<PoolOp>) -> (
    Seq<Ipv4>,
    Multiset<Ipv4>,
)
    decreases ops.len(),
{
    if ops.len() == 0 {
        (pool, taken)
    } else {
        let (p, t) = pool_step(pool, taken, ops[0]);
        run_pool_ops(p, t, ops.drop_first())
    }
}

/// A history is well formed when every released address is, at that moment,
/// either still a pool member (the no-op case) or checked out — that is,
/// nothing is released that was never handed out.
pub open spec fn pool_ops_wf(pool: Seq<Ipv4>, taken: Multiset<Ipv4>, ops: Seq<PoolOp>) -> bool
    decreases ops.len(),
{
    if ops.len() == 0 {
        true
    } else {
        let ok = match ops[0] {
            PoolOp::Release { addr } => pool.contains(addr) || taken.count(addr) > 0,
            _ => true,
        };
        ok && {
            let (p, t) = pool_step(pool, taken, ops[0]);
            pool_ops_wf(p, t, ops.drop_first())
        }
    }
}

/// Pool conservation: over any well-formed history of pick and release
/// operations, the multiset of pool members together with the multiset of
/// checked-out addresses never changes — no address is duplicated or lost.
pub proof fn lemma_pool_conservation(pool: Seq<Ipv4>, taken: Multiset<Ipv4>, ops: Seq<PoolOp>)
    requires
        pool_ops_wf(pool, taken, ops),
    ensures
        ({
            let (p, t) = run_pool_ops(pool, taken, ops);
            p.to_multiset().add(t) == pool.to_multiset().add(taken)
        }),
    decreases ops.len(),
{
    broadcast use group_to_multiset_ensures, group_multiset_axioms;

    if ops.len() > 0 {
        let (p, t) = pool_step(pool, taken, ops[0]);
        match ops[0] {
            PoolOp::PickAvailable => {
                if pool.len() > 0 {
                    let a = pool.last();
                    assert(pool =~= pool.drop_last().push(a));
                    assert(pool.drop_last().push(a).to_multiset() =~= pool.drop_last().to_multiset().insert(a));
                    assert(p.to_multiset().add(t) =~= pool.to_multiset().add(taken));
                }
            },
            PoolOp::PickSpecified { addr } => {
                if pool.contains(addr) {
                    lemma_remove_first_multiset(pool, addr);
                    assert(pool.to_multiset().count(addr) > 0);
                    assert(p.to_multiset().add(t) =~= pool.to_multiset().add(taken));
                }
            },
            PoolOp::Release { addr } => {
                if !pool.contains(addr) {
                    assert(taken.count(addr) > 0);
                    assert(seq![addr] + pool =~= pool.insert(0, addr));
                    assert(pool.insert(0, addr).to_multiset() =~= pool.to_multiset().insert(addr));
                    assert(p.to_multiset().add(t) =~= pool.to_multiset().add(taken));
                }
            },
        }
        lemma_pool_conservation(p, t, ops.drop_first());
    }
}

} // verus!
