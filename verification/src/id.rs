//! Identifiers and Lamport timestamps of the replicated file tree.

use vstd::prelude::*;

verus! {

/// Identifies a replica of the file tree.
pub type ReplicaId = u64;

/// An identifier unique across replicas: the creating replica and its sequence number.
#[derive(Clone, Copy, Debug, Default, PartialEq, Eq, Structural, Hash)]
pub struct Unique {
    pub replica_id: ReplicaId,
    pub seq: u64,
}

/// The order of `Unique` identifiers: by replica, then by sequence number.
pub open spec fn unique_lt(a: Unique, b: Unique) -> bool {
    a.replica_id < b.replica_id || (a.replica_id == b.replica_id && a.seq < b.seq)
}

impl Unique {
    /// The first identifier of replica `replica_id`.
    pub fn new(replica_id: u64) -> (u: Unique)
        ensures
            u.replica_id == replica_id,
            u.seq == 0,
    {
        Unique { replica_id, seq: 0 }
    }

    /// The identifier that follows `self` on the same replica.
    pub fn next(self) -> (u: Unique)
        requires
            self.seq < u64::MAX,
        ensures
            u.replica_id == self.replica_id,
            u.seq == self.seq + 1,
    {
        Unique { replica_id: self.replica_id, seq: self.seq + 1 }
    }

    /// `self < other`.
    pub fn lt(&self, other: &Unique) -> (b: bool)
        ensures
            b == unique_lt(*self, *other),
    {
        self.replica_id < other.replica_id || (self.replica_id == other.replica_id && self.seq
            < other.seq)
    }

    /// The greater of two identifiers.
    pub fn add(self, other: &Unique) -> (u: Unique)
        ensures
            u == (if unique_lt(self, *other) { *other } else { self }),
    {
        if self.lt(other) {
            *other
        } else {
            self
        }
    }

    /// Replaces `self` by `other` when `other` is greater.
    pub fn add_assign(&mut self, other: &Unique)
        ensures
            *final(self) == (if unique_lt(*old(self), *other) { *other } else { *old(self) }),
    {
        if self.lt(other) {
            *self = *other;
        }
    }
}

/// A Lamport timestamp of the file tree, ordered by value, then by replica.
#[derive(Clone, Copy, Debug, Default, PartialEq, Eq, Structural, Hash)]
pub struct LamportTimestamp {
    value: u64,
    replica_id: ReplicaId,
}

/// The order of `LamportTimestamp`s: by value, then by replica.
pub open spec fn timestamp_lt(a: LamportTimestamp, b: LamportTimestamp) -> bool {
    a.spec_value() < b.spec_value() || (a.spec_value() == b.spec_value() && a.spec_replica_id()
        < b.spec_replica_id())
}

impl LamportTimestamp {
    pub closed spec fn spec_value(self) -> u64 {
        self.value
    }

    pub closed spec fn spec_replica_id(self) -> ReplicaId {
        self.replica_id
    }

    /// The first timestamp of replica `replica_id`.
    pub fn new(replica_id: ReplicaId) -> (t: LamportTimestamp)
        ensures
            t.spec_value() == 0,
            t.spec_replica_id() == replica_id,
    {
        LamportTimestamp { value: 0, replica_id }
    }

    /// The greatest timestamp there is.
    pub fn max_value() -> (t: LamportTimestamp)
        ensures
            t.spec_value() == u64::MAX,
            t.spec_replica_id() == u64::MAX,
    {
        LamportTimestamp { value: u64::MAX, replica_id: u64::MAX }
    }

    /// The next timestamp of the same replica.
    pub fn inc(self) -> (t: LamportTimestamp)
        requires
            self.spec_value() < u64::MAX,
        ensures
            t.spec_value() == self.spec_value() + 1,
            t.spec_replica_id() == self.spec_replica_id(),
    {
        LamportTimestamp { value: self.value + 1, replica_id: self.replica_id }
    }

    /// The timestamp of this replica that follows both `self` and `other`.
    pub fn update(self, other: LamportTimestamp) -> (t: LamportTimestamp)
        requires
            self.spec_value() < u64::MAX,
            other.spec_value() < u64::MAX,
        ensures
            t.spec_value() == (if self.spec_value() > other.spec_value() {
                self.spec_value()
            } else {
                other.spec_value()
            }) + 1,
            t.spec_replica_id() == self.spec_replica_id(),
    {
        let m = if self.value > other.value {
            self.value
        } else {
            other.value
        };
        LamportTimestamp { value: m + 1, replica_id: self.replica_id }
    }

    /// The value of the timestamp.
    pub fn value(&self) -> (v: u64)
        ensures
            v == self.spec_value(),
    {
        self.value
    }

    /// The replica that issued the timestamp.
    pub fn replica_id(&self) -> (r: ReplicaId)
        ensures
            r == self.spec_replica_id(),
    {
        self.replica_id
    }

    /// `self < other`.
    pub fn lt(&self, other: &LamportTimestamp) -> (b: bool)
        ensures
            b == timestamp_lt(*self, *other),
    {
        self.value < other.value || (self.value == other.value && self.replica_id
            < other.replica_id)
    }
}

/// Identifies the parent reference of a file by the child and the timestamp of
/// the reference.
#[derive(Clone, Copy, Debug, Default, PartialEq, Eq, Structural)]
pub struct ParentRefKey {
    pub child_id: Unique,
    pub timestamp: LamportTimestamp,
}

/// `inc` hands out a later timestamp.
pub proof fn lemma_inc_later(t: LamportTimestamp, next: LamportTimestamp)
    requires
        next.spec_value() == t.spec_value() + 1,
        next.spec_replica_id() == t.spec_replica_id(),
    ensures
        timestamp_lt(t, next),
{
}

/// `update` hands out a timestamp later than both of its inputs.
pub proof fn lemma_update_later(a: LamportTimestamp, b: LamportTimestamp, next: LamportTimestamp)
    requires
        next.spec_value() == (if a.spec_value() > b.spec_value() {
            a.spec_value()
        } else {
            b.spec_value()
        }) + 1,
    ensures
        timestamp_lt(a, next),
        timestamp_lt(b, next),
{
}

/// No timestamp is later than the maximal one.
pub proof fn lemma_max_value_is_greatest(t: LamportTimestamp, max: LamportTimestamp)
    requires
        max.spec_value() == u64::MAX,
        max.spec_replica_id() == u64::MAX,
    ensures
        !timestamp_lt(max, t),
{
}

/// `Unique` identifiers are strictly and totally ordered: none comes before
/// itself, the order is transitive and asymmetric, and of two different
/// identifiers one comes first. A smaller replica comes first; of the same
/// replica, the smaller sequence number.
pub proof fn lemma_unique_order(a: Unique, b: Unique, c: Unique)
    ensures
        !unique_lt(a, a),
        unique_lt(a, b) ==> !unique_lt(b, a),
        unique_lt(a, b) && unique_lt(b, c) ==> unique_lt(a, c),
        a != b ==> unique_lt(a, b) || unique_lt(b, a),
        a.replica_id < b.replica_id ==> unique_lt(a, b),
        a.replica_id == b.replica_id && a.seq < b.seq ==> unique_lt(a, b),
{
}

/// `LamportTimestamp`s are strictly and totally ordered: none comes before
/// itself, the order is transitive and asymmetric, and of two with different
/// values or replicas one comes first. A smaller value comes first; of equal
/// values, the smaller replica.
pub proof fn lemma_timestamp_order(a: LamportTimestamp, b: LamportTimestamp, c: LamportTimestamp)
    ensures
        !timestamp_lt(a, a),
        timestamp_lt(a, b) ==> !timestamp_lt(b, a),
        timestamp_lt(a, b) && timestamp_lt(b, c) ==> timestamp_lt(a, c),
        a.spec_value() != b.spec_value() || a.spec_replica_id() != b.spec_replica_id()
            ==> timestamp_lt(a, b) || timestamp_lt(b, a),
        a.spec_value() < b.spec_value() ==> timestamp_lt(a, b),
        a.spec_value() == b.spec_value() && a.spec_replica_id() < b.spec_replica_id()
            ==> timestamp_lt(a, b),
{
}

} // verus!
