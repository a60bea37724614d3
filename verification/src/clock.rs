//! Logical clocks of a replica of the work tree: per-replica sequence numbers
//! (`Local`), the set of them a replica has seen (`Global`) and Lamport
//! timestamps.

use std::collections::HashMap;
use vstd::prelude::*;

verus! {

broadcast use vstd::std_specs::hash::group_hash_axioms;

/// Identifies a replica of the work tree.
pub type ReplicaId = u64;

/// A timestamp unique per replica: the replica and its sequence number.
#[derive(Clone, Copy, Debug, PartialEq, Eq, Structural, Hash)]
pub struct Local {
    pub replica_id: ReplicaId,
    pub seq: u64,
}

/// A Lamport timestamp, ordered by value first and replica second.
#[derive(Clone, Copy, Debug, Default, PartialEq, Eq, Structural, Hash)]
pub struct Lamport {
    pub value: u64,
    pub replica_id: ReplicaId,
}

/// The order of `Local` timestamps: by replica, then by sequence number.
pub open spec fn local_lt(a: Local, b: Local) -> bool {
    a.replica_id < b.replica_id || (a.replica_id == b.replica_id && a.seq < b.seq)
}

/// The order of `Lamport` timestamps: by value, then by replica.
pub open spec fn lamport_lt(a: Lamport, b: Lamport) -> bool {
    a.value < b.value || (a.value == b.value && a.replica_id < b.replica_id)
}

impl Default for Local {
    /// The timestamp before all others: replica 0, sequence number 0.
    fn default() -> (t: Local)
        ensures
            t.replica_id == 0,
            t.seq == 0,
    {
        Local { replica_id: 0, seq: 0 }
    }
}

impl Local {
    /// The clock of replica `replica_id`, before its first tick.
    pub fn new(replica_id: u64) -> (t: Local)
        ensures
            t.replica_id == replica_id,
            t.seq == 0,
    {
        Local { replica_id, seq: 0 }
    }

    /// Advances the clock by one.
    pub fn tick(&mut self)
        requires
            old(self).seq < u64::MAX,
        ensures
            final(self).replica_id == old(self).replica_id,
            final(self).seq == old(self).seq + 1,
    {
        self.seq = self.seq + 1;
    }

    /// `self` comes before `other`.
    pub fn lt(&self, other: &Local) -> (b: bool)
        ensures
            b == local_lt(*self, *other),
    {
        self.replica_id < other.replica_id || (self.replica_id == other.replica_id && self.seq
            < other.seq)
    }

    /// The later of the two timestamps.
    pub fn add(self, other: &Local) -> (t: Local)
        ensures
            t == (if local_lt(self, *other) { *other } else { self }),
    {
        if self.lt(other) {
            *other
        } else {
            self
        }
    }

    /// Moves `self` forward to `other` when `other` is later.
    pub fn add_assign(&mut self, other: &Local)
        ensures
            *final(self) == (if local_lt(*old(self), *other) { *other } else { *old(self) }),
    {
        if self.lt(other) {
            *self = *other;
        }
    }
}

/// For each replica, the greatest sequence number seen from it.
#[derive(Debug)]
pub struct Global(HashMap<ReplicaId, u64>);

/// `m` has seen timestamp `t`: it holds an entry for `t`'s replica that reaches `t`.
pub open spec fn has_seen(m: Map<ReplicaId, u64>, t: Local) -> bool {
    m.contains_key(t.replica_id) && m[t.replica_id] >= t.seq
}

/// `m` after seeing timestamp `t`: the entry of `t`'s replica becomes the greater
/// of its old value (0 when absent) and `t`'s sequence number.
pub open spec fn recorded(m: Map<ReplicaId, u64>, t: Local) -> Map<ReplicaId, u64> {
    let old_seq: u64 = if m.contains_key(t.replica_id) {
        m[t.replica_id]
    } else {
        0
    };
    m.insert(t.replica_id, if old_seq > t.seq { old_seq } else { t.seq })
}

impl View for Global {
    type V = Map<ReplicaId, u64>;

    closed spec fn view(&self) -> Map<ReplicaId, u64> {
        self.0@
    }
}

impl Clone for Global {
    fn clone(&self) -> (g: Global)
        ensures
            g@ == self@,
    {
        Global(self.0.clone())
    }
}

impl Global {
    /// Has seen nothing.
    pub fn new() -> (g: Global)
        ensures
            g@ == Map::<ReplicaId, u64>::empty(),
    {
        Global(HashMap::new())
    }

    /// Records that `timestamp` has been seen.
    pub fn record(&mut self, timestamp: &Local)
        ensures
            final(self)@ == recorded(old(self)@, *timestamp),
    {
        let seq = match self.0.get(&timestamp.replica_id) {
            Some(seq) => *seq,
            None => 0,
        };
        let new_seq = if seq > timestamp.seq {
            seq
        } else {
            timestamp.seq
        };
        self.0.insert(timestamp.replica_id, new_seq);
    }

    /// `timestamp` has been seen.
    pub fn includes(&self, timestamp: &Local) -> (b: bool)
        ensures
            b == has_seen(self@, *timestamp),
    {
        match self.0.get(&timestamp.replica_id) {
            Some(seq) => *seq >= timestamp.seq,
            None => false,
        }
    }
}

impl Lamport {
    /// The clock of replica `replica_id`, before its first tick.
    pub fn new(replica_id: ReplicaId) -> (t: Lamport)
        ensures
            t.value == 0,
            t.replica_id == replica_id,
    {
        Lamport { value: 0, replica_id }
    }

    /// The timestamp after all others.
    pub fn max_value() -> (t: Lamport)
        ensures
            t.value == u64::MAX,
            t.replica_id == u64::MAX,
    {
        Lamport { value: u64::MAX, replica_id: u64::MAX }
    }

    /// Advances the clock by one.
    pub fn tick(&mut self)
        requires
            old(self).value < u64::MAX,
        ensures
            final(self).replica_id == old(self).replica_id,
            final(self).value == old(self).value + 1,
    {
        self.value = self.value + 1;
    }

    /// Moves the clock past a timestamp of another replica; timestamps of its own
    /// replica leave it unchanged.
    pub fn observe(&mut self, timestamp: Lamport)
        requires
            timestamp.replica_id != old(self).replica_id ==> old(self).value < u64::MAX
                && timestamp.value < u64::MAX,
        ensures
            final(self).replica_id == old(self).replica_id,
            final(self).value == (if timestamp.replica_id != old(self).replica_id {
                (if old(self).value > timestamp.value {
                    old(self).value
                } else {
                    timestamp.value
                }) + 1
            } else {
                old(self).value as int
            }),
    {
        if timestamp.replica_id != self.replica_id {
            let m = if self.value > timestamp.value {
                self.value
            } else {
                timestamp.value
            };
            self.value = m + 1;
        }
    }

    /// `self` comes before `other`.
    pub fn lt(&self, other: &Lamport) -> (b: bool)
        ensures
            b == lamport_lt(*self, *other),
    {
        self.value < other.value || (self.value == other.value && self.replica_id
            < other.replica_id)
    }
}

/// After recording a timestamp it has been seen, and so has everything seen before.
pub proof fn lemma_record_then_seen(m: Map<ReplicaId, u64>, t: Local, u: Local)
    ensures
        has_seen(recorded(m, t), t),
        has_seen(m, u) ==> has_seen(recorded(m, t), u),
{
}

/// Recording a timestamp twice is recording it once.
pub proof fn lemma_record_idempotent(m: Map<ReplicaId, u64>, t: Local)
    ensures
        recorded(recorded(m, t), t) == recorded(m, t),
{
    assert(recorded(recorded(m, t), t) =~= recorded(m, t));
}

/// Recording two timestamps gives the same result in either order.
pub proof fn lemma_record_commutes(m: Map<ReplicaId, u64>, t: Local, u: Local)
    ensures
        recorded(recorded(m, t), u) == recorded(recorded(m, u), t),
{
    assert(recorded(recorded(m, t), u) =~= recorded(recorded(m, u), t));
}

/// After observing a timestamp of another replica, the clock's next timestamp
/// comes after it.
pub proof fn lemma_observe_then_tick_is_later(clock: Lamport, t: Lamport, observed: Lamport)
    requires
        t.replica_id != clock.replica_id,
        observed.replica_id == clock.replica_id,
        observed.value == (if clock.value > t.value {
            clock.value
        } else {
            t.value
        }) + 1,
    ensures
        lamport_lt(t, observed),
        lamport_lt(clock, observed),
{
}

/// `Lamport` timestamps are strictly and totally ordered: none comes before
/// itself, the order is transitive and asymmetric, and of two different
/// timestamps one comes first. A smaller value comes first; of equal values, the
/// smaller replica id.
pub proof fn lemma_lamport_order(a: Lamport, b: Lamport, c: Lamport)
    ensures
        !lamport_lt(a, a),
        lamport_lt(a, b) ==> !lamport_lt(b, a),
        lamport_lt(a, b) && lamport_lt(b, c) ==> lamport_lt(a, c),
        a != b ==> lamport_lt(a, b) || lamport_lt(b, a),
        a.value < b.value ==> lamport_lt(a, b),
        a.value == b.value && a.replica_id < b.replica_id ==> lamport_lt(a, b),
{
}

/// `Local` timestamps are strictly and totally ordered: none comes before itself,
/// the order is transitive and asymmetric, and of two different timestamps one
/// comes first. A smaller replica id comes first; of the same replica, the
/// smaller sequence number.
pub proof fn lemma_local_order(a: Local, b: Local, c: Local)
    ensures
        !local_lt(a, a),
        local_lt(a, b) ==> !local_lt(b, a),
        local_lt(a, b) && local_lt(b, c) ==> local_lt(a, c),
        a != b ==> local_lt(a, b) || local_lt(b, a),
        a.replica_id < b.replica_id ==> local_lt(a, b),
        a.replica_id == b.replica_id && a.seq < b.seq ==> local_lt(a, b),
{
}

} // verus!
