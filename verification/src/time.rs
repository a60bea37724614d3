//! Logical clocks: per-replica sequence numbers (`Local`), Lamport timestamps and
//! version vectors (`Global`).

use std::collections::HashMap;
use vstd::std_specs::iter::IteratorSpec;
use vstd::prelude::*;

verus! {

broadcast use vstd::std_specs::hash::group_hash_axioms;

/// Identifies a replica (the 128-bit value of its UUID).
pub type ReplicaId = u128;

/// A timestamp that is unique per replica: the replica's id and its sequence number.
#[derive(Clone, Copy, Debug, Default, PartialEq, Eq, Structural, Hash)]
pub struct Local {
    pub replica_id: ReplicaId,
    pub value: u64,
}

/// A Lamport timestamp, ordered by value first and replica id second.
#[derive(Clone, Copy, Debug, Default, PartialEq, Eq, Structural, Hash)]
pub struct Lamport {
    pub value: u64,
    pub replica_id: ReplicaId,
}

/// The order of `Local` timestamps: by replica id, then by value.
pub open spec fn local_lt(a: Local, b: Local) -> bool {
    a.replica_id < b.replica_id || (a.replica_id == b.replica_id && a.value < b.value)
}

/// The order of `Lamport` timestamps: by value, then by replica id.
pub open spec fn lamport_lt(a: Lamport, b: Lamport) -> bool {
    a.value < b.value || (a.value == b.value && a.replica_id < b.replica_id)
}

impl Local {
    /// The first timestamp that replica `replica_id` hands out.
    pub fn new(replica_id: ReplicaId) -> (t: Local)
        ensures
            t.replica_id == replica_id,
            t.value == 1,
    {
        Local { replica_id, value: 1 }
    }

    /// Hands out the current timestamp and advances the clock.
    pub fn tick(&mut self) -> (t: Local)
        requires
            old(self).value < u64::MAX,
        ensures
            t == *old(self),
            final(self).replica_id == old(self).replica_id,
            final(self).value == old(self).value + 1,
    {
        let timestamp = *self;
        self.value = self.value + 1;
        timestamp
    }

    /// Advances the clock past a timestamp of the same replica.
    pub fn observe(&mut self, timestamp: Local)
        requires
            timestamp.replica_id == old(self).replica_id ==> timestamp.value < u64::MAX,
        ensures
            final(self).replica_id == old(self).replica_id,
            final(self).value == (if timestamp.replica_id == old(self).replica_id
                && timestamp.value + 1 > old(self).value {
                timestamp.value + 1
            } else {
                old(self).value as int
            }),
    {
        if timestamp.replica_id == self.replica_id {
            if timestamp.value + 1 > self.value {
                self.value = timestamp.value + 1;
            }
        }
    }

    /// `self < other` in the order of `Local` timestamps.
    pub fn lt(&self, other: &Local) -> (b: bool)
        ensures
            b == local_lt(*self, *other),
    {
        self.replica_id < other.replica_id || (self.replica_id == other.replica_id && self.value
            < other.value)
    }

    /// The greater of two timestamps.
    pub fn add(self, other: &Local) -> (t: Local)
        ensures
            t == (if local_lt(self, *other) { *other } else { self }),
    {
        if self.lt(other) {
            *other
        } else {
            self
        }
    }

    /// Replaces `self` by `other` when `other` is greater.
    pub fn add_assign(&mut self, other: &Local)
        ensures
            *final(self) == (if local_lt(*old(self), *other) { *other } else { *old(self) }),
    {
        if self.lt(other) {
            *self = *other;
        }
    }
}

impl Lamport {
    /// The first Lamport timestamp of replica `replica_id`.
    pub fn new(replica_id: ReplicaId) -> (t: Lamport)
        ensures
            t.replica_id == replica_id,
            t.value == 1,
    {
        Lamport { value: 1, replica_id }
    }

    /// Hands out the current timestamp and advances the clock.
    pub fn tick(&mut self) -> (t: Lamport)
        requires
            old(self).value < u64::MAX,
        ensures
            t == *old(self),
            final(self).replica_id == old(self).replica_id,
            final(self).value == old(self).value + 1,
    {
        let timestamp = *self;
        self.value = self.value + 1;
        timestamp
    }

    /// Advances the clock past `timestamp` (and past its own current value).
    pub fn observe(&mut self, timestamp: Lamport)
        requires
            old(self).value < u64::MAX,
            timestamp.value < u64::MAX,
        ensures
            final(self).replica_id == old(self).replica_id,
            final(self).value == (if old(self).value > timestamp.value {
                old(self).value
            } else {
                timestamp.value
            }) + 1,
    {
        let m = if self.value > timestamp.value {
            self.value
        } else {
            timestamp.value
        };
        self.value = m + 1;
    }

    /// `self < other` in the order of Lamport timestamps.
    pub fn lt(&self, other: &Lamport) -> (b: bool)
        ensures
            b == lamport_lt(*self, *other),
    {
        self.value < other.value || (self.value == other.value && self.replica_id
            < other.replica_id)
    }
}

/// A version vector: for each replica, the greatest sequence number observed.
/// Replicas that are absent count as 0.
#[derive(Debug)]
pub struct Global(HashMap<ReplicaId, u64>);

/// The entry of a version vector for `replica_id` (0 when absent).
pub open spec fn entry(m: Map<ReplicaId, u64>, replica_id: ReplicaId) -> int {
    if m.contains_key(replica_id) {
        m[replica_id] as int
    } else {
        0
    }
}

pub open spec fn max_int(a: int, b: int) -> int {
    if a >= b {
        a
    } else {
        b
    }
}

/// `a` has seen everything `b` has seen.
pub open spec fn dominates(a: Map<ReplicaId, u64>, b: Map<ReplicaId, u64>) -> bool {
    forall|r: ReplicaId| entry(a, r) >= entry(b, r)
}

/// An element is in `t.push(k)` exactly when it is `k` or already in `t`.
pub proof fn lemma_push_contains(t: Seq<ReplicaId>, k: ReplicaId)
    ensures
        forall|r: ReplicaId| #[trigger] t.push(k).contains(r) == (t.contains(r) || r == k),
{
    assert forall|r: ReplicaId| #[trigger] t.push(k).contains(r) == (t.contains(r) || r == k) by {
        if r == k {
            assert(t.push(k)[t.len() as int] == k);
        }
        if t.contains(r) {
            let j = choose|j: int| 0 <= j < t.len() && t[j] == r;
            assert(t.push(k)[j] == r);
        }
    }
}

/// Every replica listed in `keys` has an entry in `a` no greater than in `b`.
pub open spec fn all_le(a: Map<ReplicaId, u64>, b: Map<ReplicaId, u64>, keys: Seq<ReplicaId>) -> bool {
    forall|r: ReplicaId| #[trigger] keys.contains(r) ==> entry(a, r) <= entry(b, r)
}

proof fn lemma_all_le_push(a: Map<ReplicaId, u64>, b: Map<ReplicaId, u64>, t: Seq<ReplicaId>, k: ReplicaId)
    ensures
        all_le(a, b, t.push(k)) == (all_le(a, b, t) && entry(a, k) <= entry(b, k)),
        !all_le(a, b, t) ==> !dominates(b, a),
{
    lemma_push_contains(t, k);
    if all_le(a, b, t) && entry(a, k) <= entry(b, k) {
        assert forall|r: ReplicaId| #[trigger] t.push(k).contains(r) implies entry(a, r) <= entry(b, r) by {
            if r != k {
                assert(t.contains(r));
            }
        }
    } else if !all_le(a, b, t) {
        let w = choose|r: ReplicaId| #[trigger] t.contains(r) && !(entry(a, r) <= entry(b, r));
        assert(t.push(k).contains(w));
    } else {
        assert(t.push(k).contains(k));
    }
}

/// Over all replicas that appear in either vector, `all_le` is domination.
proof fn lemma_all_le_dominates(a: Map<ReplicaId, u64>, b: Map<ReplicaId, u64>, keys: Seq<ReplicaId>)
    requires
        forall|r: ReplicaId| #[trigger] keys.contains(r) == (a.dom().contains(r) || b.dom().contains(r)),
    ensures
        all_le(a, b, keys) == dominates(b, a),
{
    if all_le(a, b, keys) {
        assert forall|r: ReplicaId| entry(b, r) >= entry(a, r) by {
            if keys.contains(r) {
            }
        }
    }
}

/// How two version vectors compare: equal, one strictly behind the other, or
/// concurrent (`None`).
pub open spec fn vector_order(a: Map<ReplicaId, u64>, b: Map<ReplicaId, u64>) -> Option<
    std::cmp::Ordering,
> {
    if dominates(a, b) && dominates(b, a) {
        Some(std::cmp::Ordering::Equal)
    } else if dominates(b, a) {
        Some(std::cmp::Ordering::Less)
    } else if dominates(a, b) {
        Some(std::cmp::Ordering::Greater)
    } else {
        None
    }
}

/// The version vector that has observed what either `a` or `b` has observed.
pub open spec fn join(a: Map<ReplicaId, u64>, b: Map<ReplicaId, u64>) -> Map<ReplicaId, u64> {
    Map::new(
        |r: ReplicaId| a.contains_key(r) || b.contains_key(r),
        |r: ReplicaId| max_int(entry(a, r), entry(b, r)) as u64,
    )
}

/// The version vector `m` after observing timestamp `t`.
pub open spec fn observe_view(m: Map<ReplicaId, u64>, t: Local) -> Map<ReplicaId, u64> {
    m.insert(t.replica_id, max_int(entry(m, t.replica_id), t.value as int) as u64)
}

impl View for Global {
    type V = Map<ReplicaId, u64>;

    closed spec fn view(&self) -> Map<ReplicaId, u64> {
        self.0@
    }
}

impl Clone for Global {
    fn clone(&self) -> (g: Global)
        ensures
            g@ == self@,
    {
        Global(self.0.clone())
    }
}

impl Global {
    /// The version vector that has observed nothing.
    pub fn new() -> (g: Global)
        ensures
            g@ == Map::<ReplicaId, u64>::empty(),
    {
        Global(HashMap::new())
    }

    /// The greatest sequence number observed from `replica_id`.
    pub fn get(&self, replica_id: ReplicaId) -> (v: u64)
        ensures
            v == entry(self@, replica_id),
    {
        match self.0.get(&replica_id) {
            Some(v) => *v,
            None => 0,
        }
    }

    /// Records that `timestamp` has been observed.
    pub fn observe(&mut self, timestamp: Local)
        ensures
            final(self)@ == observe_view(old(self)@, timestamp),
    {
        let current = self.get(timestamp.replica_id);
        let value = if current > timestamp.value {
            current
        } else {
            timestamp.value
        };
        self.0.insert(timestamp.replica_id, value);
    }

    /// `timestamp` has been observed.
    pub fn observed(&self, timestamp: Local) -> (b: bool)
        ensures
            b == (entry(self@, timestamp.replica_id) >= timestamp.value),
    {
        self.get(timestamp.replica_id) >= timestamp.value
    }

    /// Records everything that `other` has observed: each entry becomes the
    /// greater of the two entries.
    pub fn observe_all(&mut self, other: &Global)
        ensures
            final(self)@ == join(old(self)@, other@),
    {
        let ghost start = self@;
        let ghost keys = other.0.keys();
        let ghost mut done: int = 0;
        proof {
            assert(keys.remaining().unref().to_set() == other@.dom());
        }
        for replica_id in it: other.0.keys()
            invariant
                it.seq() == keys.remaining(),
                done == it.index(),
                forall|r: ReplicaId| #[trigger] entry(self@, r) == (if keys.remaining().take(done).unref().contains(r) {
                    max_int(entry(start, r), entry(other@, r))
                } else {
                    entry(start, r)
                }),
                forall|r: ReplicaId| #[trigger] self@.dom().contains(r) == (start.dom().contains(r) || keys.remaining().take(done).unref().contains(r)),
        {
            let ghost before = self@;
            let value = other.get(*replica_id);
            self.observe(Local { replica_id: *replica_id, value });
            proof {
                let k = *replica_id;
                let t = keys.remaining().take(done).unref();
                assert(keys.remaining().take(done + 1).unref() =~= t.push(k));
                lemma_push_contains(t, k);
                assert forall|r: ReplicaId| #[trigger] entry(self@, r) == (if t.push(k).contains(r) {
                    max_int(entry(start, r), entry(other@, r))
                } else {
                    entry(start, r)
                }) by {
                    assert(entry(before, r) == (if t.contains(r) {
                        max_int(entry(start, r), entry(other@, r))
                    } else {
                        entry(start, r)
                    }));
                }
                done = done + 1;
            }
        }
        proof {
            assert(keys.remaining().take(done) =~= keys.remaining());
            assert forall|r: ReplicaId| #[trigger] keys.remaining().unref().contains(r) == other@.dom().contains(r) by {
                assert(keys.remaining().unref().to_set().contains(r) == keys.remaining().unref().contains(r));
            }
            assert forall|r: ReplicaId| self@.contains_key(r) implies self@[r] == join(start, other@)[r] by {
                assert(entry(self@, r) == self@[r]);
            }
            assert(self@ =~= join(start, other@));
        }
    }

    /// Some replica has an entry in `self` that exceeds its entry in `other`.
    pub fn changed_since(&self, other: &Global) -> (b: bool)
        ensures
            b == exists|r: ReplicaId| entry(self@, r) > entry(other@, r),
    {
        let ghost keys = self.0.keys();
        let ghost mut done: int = 0;
        proof {
            assert(keys.remaining().unref().to_set() == self@.dom());
        }
        for replica_id in it: self.0.keys()
            invariant
                it.seq() == keys.remaining(),
                done == it.index(),
                forall|r: ReplicaId| keys.remaining().take(done).unref().contains(r) ==> entry(self@, r) <= entry(other@, r),
        {
            let k = *replica_id;
            let ghost t = keys.remaining().take(done).unref();
            proof {
                assert(keys.remaining().take(done + 1).unref() =~= t.push(k));
                assert(keys.remaining().unref().to_set().contains(k));
                assert(self@.dom().contains(k));
            }
            if self.get(k) > other.get(k) {
                return true;
            }
            proof {
                assert forall|r: ReplicaId| t.push(k).contains(r) implies entry(self@, r) <= entry(other@, r) by {
                    if r != k {
                        let j = choose|j: int| 0 <= j < t.push(k).len() && t.push(k)[j] == r;
                        assert(j < t.len());
                        assert(t.contains(r));
                    }
                }
                done = done + 1;
            }
        }
        proof {
            assert(keys.remaining().take(done) =~= keys.remaining());
            assert forall|r: ReplicaId| entry(self@, r) <= entry(other@, r) by {
                if self@.dom().contains(r) {
                    assert(keys.remaining().unref().to_set().contains(r));
                }
            }
        }
        false
    }

    /// Compares two version vectors entry by entry; `None` when some entry is
    /// ahead on each side.
    pub fn partial_cmp(&self, other: &Global) -> (r: Option<std::cmp::Ordering>)
        ensures
            r == vector_order(self@, other@),
    {
        // `le` / `ge`: every key seen so far compares `<=` / `>=`.
        let mut le = true;
        let mut ge = true;
        let ghost self_keys = self.0.keys();
        let ghost other_keys = other.0.keys();
        let ghost mut done: int = 0;
        proof {
            assert(self_keys.remaining().unref().to_set() == self@.dom());
            assert(other_keys.remaining().unref().to_set() == other@.dom());
        }
        for replica_id in it: self.0.keys()
            invariant
                it.seq() == self_keys.remaining(),
                done == it.index(),
                le == all_le(self@, other@, self_keys.remaining().take(done).unref()),
                ge == all_le(other@, self@, self_keys.remaining().take(done).unref()),
                le || ge,
        {
            let k = *replica_id;
            let ghost t = self_keys.remaining().take(done).unref();
            proof {
                assert(self_keys.remaining().take(done + 1).unref() =~= t.push(k));
                lemma_push_contains(t, k);
            }
            let a = self.get(k);
            let b = other.get(k);
            if a < b {
                ge = false;
            }
            if a > b {
                le = false;
            }
            proof {
                lemma_all_le_push(self@, other@, t, k);
                lemma_all_le_push(other@, self@, t, k);
            }
            if !le && !ge {
                return None;
            }
            proof {
                done = done + 1;
            }
        }
        proof {
            assert(self_keys.remaining().take(done) =~= self_keys.remaining());
            assert forall|r: ReplicaId| #[trigger] self_keys.remaining().unref().contains(r) == self@.dom().contains(r) by {
                assert(self_keys.remaining().unref().to_set().contains(r) == self_keys.remaining().unref().contains(r));
            }
            assert(other_keys.remaining().take(0).unref() =~= Seq::<ReplicaId>::empty());
            assert(self_keys.remaining().unref() + other_keys.remaining().take(0).unref() =~= self_keys.remaining().unref());
        }
        let ghost mut done2: int = 0;
        for replica_id in it: other.0.keys()
            invariant
                it.seq() == other_keys.remaining(),
                done2 == it.index(),
                le == all_le(self@, other@, self_keys.remaining().unref() + other_keys.remaining().take(done2).unref()),
                ge == all_le(other@, self@, self_keys.remaining().unref() + other_keys.remaining().take(done2).unref()),
                le || ge,
        {
            let k = *replica_id;
            let ghost t = other_keys.remaining().take(done2).unref();
            proof {
                assert(other_keys.remaining().take(done2 + 1).unref() =~= t.push(k));
                lemma_push_contains(t, k);
            }
            let a = self.get(k);
            let b = other.get(k);
            if a < b {
                ge = false;
            }
            if a > b {
                le = false;
            }
            proof {
                let pre = self_keys.remaining().unref();
                assert(pre + t.push(k) =~= (pre + t).push(k));
                assert(other_keys.remaining().take(done2 + 1).unref() =~= t.push(k));
                lemma_all_le_push(self@, other@, pre + t, k);
                lemma_all_le_push(other@, self@, pre + t, k);
            }
            if !le && !ge {
                return None;
            }
            proof {
                done2 = done2 + 1;
            }
        }
        proof {
            assert(other_keys.remaining().take(done2) =~= other_keys.remaining());
            assert forall|r: ReplicaId| #[trigger] other_keys.remaining().unref().contains(r) == other@.dom().contains(r) by {
                assert(other_keys.remaining().unref().to_set().contains(r) == other_keys.remaining().unref().contains(r));
            }
            let all = self_keys.remaining().unref() + other_keys.remaining().unref();
            assert forall|r: ReplicaId| #[trigger] all.contains(r) == (self@.dom().contains(r) || other@.dom().contains(r)) by {
                if self_keys.remaining().unref().contains(r) {
                    let j = choose|j: int| 0 <= j < self_keys.remaining().unref().len() && self_keys.remaining().unref()[j] == r;
                    assert(all[j] == r);
                }
                if other_keys.remaining().unref().contains(r) {
                    let j = choose|j: int| 0 <= j < other_keys.remaining().unref().len() && other_keys.remaining().unref()[j] == r;
                    assert(all[self_keys.remaining().unref().len() + j] == r);
                }
                if all.contains(r) {
                    let j = choose|j: int| 0 <= j < all.len() && all[j] == r;
                    if j < self_keys.remaining().unref().len() {
                        assert(self_keys.remaining().unref()[j] == r);
                    } else {
                        assert(other_keys.remaining().unref()[j - self_keys.remaining().unref().len()] == r);
                    }
                }
            }
            lemma_all_le_dominates(self@, other@, all);
            lemma_all_le_dominates(other@, self@, all);
        }
        if le && ge {
            Some(std::cmp::Ordering::Equal)
        } else if le {
            Some(std::cmp::Ordering::Less)
        } else {
            Some(std::cmp::Ordering::Greater)
        }
    }
}

/// Observing a timestamp makes it observed.
pub proof fn lemma_observe_then_observed(m: Map<ReplicaId, u64>, t: Local)
    ensures
        entry(observe_view(m, t), t.replica_id) >= t.value,
{
}

/// Observing a timestamp forgets nothing that was observed before.
pub proof fn lemma_observe_monotone(m: Map<ReplicaId, u64>, t: Local)
    ensures
        dominates(observe_view(m, t), m),
{
}

/// Merging version vectors is commutative.
pub proof fn lemma_join_commutative(a: Map<ReplicaId, u64>, b: Map<ReplicaId, u64>)
    ensures
        join(a, b) == join(b, a),
{
    assert(join(a, b) =~= join(b, a));
}

/// Merging version vectors is associative.
pub proof fn lemma_join_associative(a: Map<ReplicaId, u64>, b: Map<ReplicaId, u64>, c: Map<ReplicaId, u64>)
    ensures
        join(join(a, b), c) == join(a, join(b, c)),
{
    assert(join(join(a, b), c) =~= join(a, join(b, c)));
}

/// Merging a version vector with itself changes nothing.
pub proof fn lemma_join_idempotent(a: Map<ReplicaId, u64>)
    ensures
        join(a, a) == a,
{
    assert(join(a, a) =~= a);
}

/// The merge of two version vectors is their least upper bound.
pub proof fn lemma_join_least_upper_bound(a: Map<ReplicaId, u64>, b: Map<ReplicaId, u64>, c: Map<ReplicaId, u64>)
    ensures
        dominates(join(a, b), a),
        dominates(join(a, b), b),
        dominates(c, a) && dominates(c, b) ==> dominates(c, join(a, b)),
{
    if dominates(c, a) && dominates(c, b) {
        assert forall|r: ReplicaId| entry(c, r) >= entry(join(a, b), r) by {
            assert(entry(c, r) >= entry(a, r));
            assert(entry(c, r) >= entry(b, r));
        }
    }
}

/// The comparison of version vectors is antisymmetric: `a < b` exactly when `b > a`,
/// and equal vectors compare equal both ways.
pub proof fn lemma_vector_order_flip(a: Map<ReplicaId, u64>, b: Map<ReplicaId, u64>)
    ensures
        (vector_order(a, b) == Some(std::cmp::Ordering::Less)) == (vector_order(b, a) == Some(std::cmp::Ordering::Greater)),
        (vector_order(a, b) == Some(std::cmp::Ordering::Equal)) == (vector_order(b, a) == Some(std::cmp::Ordering::Equal)),
        (vector_order(a, b) is None) == (vector_order(b, a) is None),
{
}

/// A version vector is never behind what it merged in.
pub proof fn lemma_join_not_behind(a: Map<ReplicaId, u64>, b: Map<ReplicaId, u64>)
    ensures
        vector_order(join(a, b), a) == Some(std::cmp::Ordering::Equal) || vector_order(join(a, b), a)
            == Some(std::cmp::Ordering::Greater),
{
}

/// Nothing changed in `a` since `b` exactly when `b` has seen everything `a` has.
pub proof fn lemma_changed_since_iff_not_dominated(a: Map<ReplicaId, u64>, b: Map<ReplicaId, u64>)
    ensures
        (exists|r: ReplicaId| entry(a, r) > entry(b, r)) == !dominates(b, a),
{
}

/// A Lamport clock that observed a timestamp is strictly ahead of it.
pub proof fn lemma_lamport_observe_ahead(clock: Lamport, t: Lamport, after: Lamport)
    requires
        after.replica_id == clock.replica_id,
        after.value == (if clock.value > t.value { clock.value } else { t.value }) + 1,
    ensures
        lamport_lt(t, after),
        lamport_lt(clock, after),
{
}

/// Successive ticks of a clock hand out strictly increasing timestamps.
pub proof fn lemma_tick_increasing(before: Local, after: Local)
    requires
        after.replica_id == before.replica_id,
        after.value == before.value + 1,
    ensures
        local_lt(before, after),
{
}

/// After a local clock observed a timestamp of its own replica, it hands out
/// timestamps that come after that one.
pub proof fn lemma_local_observe_ahead(clock: Local, t: Local, after: Local)
    requires
        t.replica_id == clock.replica_id,
        after.replica_id == clock.replica_id,
        after.value == (if t.value + 1 > clock.value { t.value + 1 } else { clock.value as int }),
    ensures
        local_lt(t, after),
{
}

/// `Lamport` timestamps are strictly and totally ordered: none comes before
/// itself, the order is transitive and asymmetric, and of two different
/// timestamps one comes first. A smaller value comes first; of equal values, the
/// smaller replica id.
pub proof fn lemma_lamport_order(a: Lamport, b: Lamport, c: Lamport)
    ensures
        !lamport_lt(a, a),
        lamport_lt(a, b) ==> !lamport_lt(b, a),
        lamport_lt(a, b) && lamport_lt(b, c) ==> lamport_lt(a, c),
        a != b ==> lamport_lt(a, b) || lamport_lt(b, a),
        a.value < b.value ==> lamport_lt(a, b),
        a.value == b.value && a.replica_id < b.replica_id ==> lamport_lt(a, b),
{
}

/// `Local` timestamps are strictly and totally ordered: none comes before itself,
/// the order is transitive and asymmetric, and of two different timestamps one
/// comes first. A smaller replica id comes first; of the same replica, the
/// smaller value.
pub proof fn lemma_local_order(a: Local, b: Local, c: Local)
    ensures
        !local_lt(a, a),
        local_lt(a, b) ==> !local_lt(b, a),
        local_lt(a, b) && local_lt(b, c) ==> local_lt(a, c),
        a != b ==> local_lt(a, b) || local_lt(b, a),
        a.replica_id < b.replica_id ==> local_lt(a, b),
        a.replica_id == b.replica_id && a.value < b.value ==> local_lt(a, b),
{
}

/// Observing is a maximum: the entry of the timestamp's replica becomes the
/// greater of its old entry and the timestamp's value, and no other entry changes.
pub proof fn lemma_observe_is_max(m: Map<ReplicaId, u64>, t: Local, r: ReplicaId)
    ensures
        entry(observe_view(m, t), t.replica_id) >= entry(m, t.replica_id),
        entry(observe_view(m, t), t.replica_id) >= t.value,
        entry(observe_view(m, t), t.replica_id) == entry(m, t.replica_id) || entry(
            observe_view(m, t),
            t.replica_id,
        ) == t.value,
        r != t.replica_id ==> entry(observe_view(m, t), r) == entry(m, r),
{
}

/// Observing a timestamp a second time changes nothing.
pub proof fn lemma_observe_idempotent(m: Map<ReplicaId, u64>, t: Local)
    ensures
        observe_view(observe_view(m, t), t) == observe_view(m, t),
{
    assert(observe_view(observe_view(m, t), t) =~= observe_view(m, t));
}

} // verus!
