//! What a replica of the work tree keeps to stamp its operations: its id and its
//! two clocks.

use crate::clock::{self, lamport_lt, local_lt, ReplicaId};
use vstd::prelude::*;

verus! {

/// A replica's id with its local and Lamport clocks.
pub struct ReplicaContext {
    replica_id: ReplicaId,
    local_clock: clock::Local,
    lamport_clock: clock::Lamport,
}

impl ReplicaContext {
    pub closed spec fn spec_replica_id(&self) -> ReplicaId {
        self.replica_id
    }

    /// The last local timestamp handed out (sequence number 0 before the first).
    pub closed spec fn local_clock(&self) -> clock::Local {
        self.local_clock
    }

    /// The last Lamport timestamp handed out or observed.
    pub closed spec fn lamport_clock(&self) -> clock::Lamport {
        self.lamport_clock
    }

    /// Starts the clocks of replica `replica_id`, which must not be 0.
    pub fn new(replica_id: ReplicaId) -> (c: ReplicaContext)
        requires
            replica_id != 0,
        ensures
            c.spec_replica_id() == replica_id,
            c.local_clock() == (clock::Local { replica_id, seq: 0 }),
            c.lamport_clock() == (clock::Lamport { value: 0, replica_id }),
    {
        ReplicaContext {
            replica_id,
            local_clock: clock::Local::new(replica_id),
            lamport_clock: clock::Lamport::new(replica_id),
        }
    }

    pub fn replica_id(&self) -> (r: ReplicaId)
        ensures
            r == self.spec_replica_id(),
    {
        self.replica_id
    }

    /// The next local timestamp.
    pub fn local_time(&mut self) -> (t: clock::Local)
        requires
            old(self).local_clock().seq < u64::MAX,
        ensures
            t.replica_id == old(self).local_clock().replica_id,
            t.seq == old(self).local_clock().seq + 1,
            final(self).local_clock() == t,
            final(self).lamport_clock() == old(self).lamport_clock(),
            final(self).spec_replica_id() == old(self).spec_replica_id(),
            local_lt(old(self).local_clock(), t),
    {
        self.local_clock.tick();
        self.local_clock
    }

    /// The next Lamport timestamp.
    pub fn lamport_time(&mut self) -> (t: clock::Lamport)
        requires
            old(self).lamport_clock().value < u64::MAX,
        ensures
            t.replica_id == old(self).lamport_clock().replica_id,
            t.value == old(self).lamport_clock().value + 1,
            final(self).lamport_clock() == t,
            final(self).local_clock() == old(self).local_clock(),
            final(self).spec_replica_id() == old(self).spec_replica_id(),
            lamport_lt(old(self).lamport_clock(), t),
    {
        self.lamport_clock.tick();
        self.lamport_clock
    }

    /// Moves the Lamport clock past a timestamp received from another replica.
    pub fn observe_lamport_timestamp(&mut self, timestamp: clock::Lamport)
        requires
            timestamp.replica_id != old(self).lamport_clock().replica_id ==> old(
                self,
            ).lamport_clock().value < u64::MAX && timestamp.value < u64::MAX,
        ensures
            final(self).lamport_clock().replica_id == old(self).lamport_clock().replica_id,
            final(self).lamport_clock().value == (if timestamp.replica_id != old(
                self,
            ).lamport_clock().replica_id {
                (if old(self).lamport_clock().value > timestamp.value {
                    old(self).lamport_clock().value
                } else {
                    timestamp.value
                }) + 1
            } else {
                old(self).lamport_clock().value as int
            }),
            final(self).local_clock() == old(self).local_clock(),
            final(self).spec_replica_id() == old(self).spec_replica_id(),
    {
        self.lamport_clock.observe(timestamp);
    }
}

} // verus!
