use vstd::prelude::*;

use crate::connection::Connect;
use crate::entity::Entity;
use crate::registry::Connections;

verus! {

/// Identifies one (component type, signal type) pair, as numbers the host
/// assigns to the two types.
#[derive(Clone, Copy, Debug, Hash, PartialEq, Eq, Structural)]
pub struct ProcessorKey {
    pub component: u64,
    pub signal: u64,
}

/// The pairs for which a dispatch system has been scheduled, after one more
/// registration of `k`.
pub open spec fn register(s: Seq<ProcessorKey>, k: ProcessorKey) -> Seq<ProcessorKey> {
    if s.contains(k) {
        s
    } else {
        s.push(k)
    }
}

/// The pairs after `n` registrations of `k`.
pub open spec fn register_times(s: Seq<ProcessorKey>, k: ProcessorKey, n: nat) -> Seq<ProcessorKey>
    decreases n,
{
    if n == 0 {
        s
    } else {
        register(register_times(s, k, (n - 1) as nat), k)
    }
}

/// Registering a pair any positive number of times has the effect of
/// registering it once: the pair is then present exactly once.
pub proof fn lemma_registration_idempotent(s: Seq<ProcessorKey>, k: ProcessorKey, n: nat)
    requires
        s.no_duplicates(),
        n >= 1,
    ensures
        register_times(s, k, n) == register(s, k),
        register_times(s, k, n).contains(k),
        register_times(s, k, n).no_duplicates(),
    decreases n,
{
    let r = register(s, k);
    if !s.contains(k) {
        assert(r[s.len() as int] == k);
        assert forall|a: int, b: int| 0 <= a < r.len() && 0 <= b < r.len() && a != b implies r[a]
            != r[b] by {
            if a < s.len() && b < s.len() {
            } else if a < s.len() {
                assert(s.contains(s[a]));
            } else {
                assert(s.contains(s[b]));
            }
        }
    }
    assert(r.contains(k));
    assert(register(r, k) == r);
    if n > 1 {
        lemma_registration_idempotent(s, k, (n - 1) as nat);
    } else {
        assert(register_times(s, k, 0) == s);
    }
}

/// The (component, signal) pairs for which a dispatch system is scheduled.
pub struct SignalProcessors {
    keys: Vec<ProcessorKey>,
}

impl SignalProcessors {
    /// The registered pairs, in order of registration.
    pub closed spec fn registered(&self) -> Seq<ProcessorKey> {
        self.keys@
    }

    /// Each pair is registered at most once.
    pub open spec fn wf(&self) -> bool {
        self.registered().no_duplicates()
    }

    /// No pair registered.
    pub fn new() -> (r: SignalProcessors)
        ensures
            r.wf(),
            r.registered() == Seq::<ProcessorKey>::empty(),
    {
        SignalProcessors { keys: Vec::new() }
    }

    /// Whether `key` has a dispatch system.
    pub fn contains(&self, key: ProcessorKey) -> (r: bool)
        ensures
            r == self.registered().contains(key),
    {
        let mut i: usize = 0;
        while i < self.keys.len()
            invariant
                0 <= i <= self.keys@.len(),
                forall|j: int| 0 <= j < i ==> self.keys@[j] != key,
            decreases self.keys@.len() - i,
        {
            if self.keys[i] == key {
                return true;
            }
            i += 1;
        }
        false
    }

    /// Records `key`; returns whether it was new, that is whether the caller
    /// must schedule its dispatch system now.
    pub fn add_signals_processor(&mut self, key: ProcessorKey) -> (added: bool)
        requires
            old(self).wf(),
        ensures
            final(self).wf(),
            added == !old(self).registered().contains(key),
            final(self).registered() == register(old(self).registered(), key),
    {
        if self.contains(key) {
            false
        } else {
            proof {
                lemma_registration_idempotent(self.keys@, key, 1);
                assert(register_times(self.keys@, key, 1) == register(register_times(self.keys@, key, 0), key));
            }
            self.keys.push(key);
            true
        }
    }
}

impl<G, E, K, F> Connect<G, E, K, F> {
    /// Makes sure the pair `key` has a dispatch system, then registers this
    /// connection. Returns whether the dispatch system must be scheduled now.
    pub fn write(
        self,
        processors: &mut SignalProcessors,
        key: ProcessorKey,
        connections: &mut Connections<G, E, K, F>,
    ) -> (added: bool)
        requires
            old(processors).wf(),
            old(connections).wf(),
        ensures
            final(processors).wf(),
            added == !old(processors).registered().contains(key),
            final(processors).registered() == register(old(processors).registered(), key),
            final(connections).wf(),
            forall|e: Entity|
                #[trigger] final(connections).connections_of(e) == if e == self.source {
                    old(connections).connections_of(e).push(self.target)
                } else {
                    old(connections).connections_of(e)
                },
            forall|t: Entity|
                #[trigger] final(connections).referrers_of(t) == if self.target.target.target_id()
                    == Some(t) {
                    old(connections).referrers_of(t).push(self.source)
                } else {
                    old(connections).referrers_of(t)
                },
    {
        let added = processors.add_signals_processor(key);
        connections.add(self);
        added
    }
}

} // verus!
