//! The connection lifecycle policy: how many inbound connections a
//! server run accepts before it stops listening.
//!
//! The default is one connection, processed to completion, then
//! shutdown; that bound is a policy value here, not a hard limit
//! buried in the dispatch logic.

use vstd::prelude::*;

verus! {

/// Admits inbound connections up to a fixed total, then refuses.
pub struct ConnectionPolicy {
    max_connections: u64,
    served: u64,
}

impl ConnectionPolicy {
    /// How many connections this policy admits in total.
    pub closed spec fn max(&self) -> u64 {
        self.max_connections
    }

    /// How many connections it has admitted so far.
    pub closed spec fn served(&self) -> u64 {
        self.served
    }

    /// A policy that admits `max_connections` connections.
    pub fn new(max_connections: u64) -> (p: ConnectionPolicy)
        ensures
            p.max() == max_connections,
            p.served() == 0,
    {
        ConnectionPolicy { max_connections, served: 0 }
    }

    /// The default policy: exactly one connection, then shutdown.
    pub fn single_connection() -> (p: ConnectionPolicy)
        ensures
            p.max() == 1,
            p.served() == 0,
    {
        ConnectionPolicy::new(1)
    }

    /// Asks to admit one more connection: admitted if and only if the
    /// total has not yet been reached.
    pub fn try_admit(&mut self) -> (r: bool)
        ensures
            final(self).max() == old(self).max(),
            r == (old(self).served() < old(self).max()),
            r ==> final(self).served() == old(self).served() + 1,
            !r ==> final(self).served() == old(self).served(),
    {
        if self.served < self.max_connections {
            self.served = self.served + 1;
            true
        } else {
            false
        }
    }

    /// Whether the policy refuses any further connection.
    pub fn exhausted(&self) -> (r: bool)
        ensures
            r == (self.served() >= self.max()),
    {
        self.served >= self.max_connections
    }
}

} // verus!
