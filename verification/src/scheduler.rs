//! The system scheduler: an ordered list of behaviours ("systems") run
//! once per tick, each against the world and the elapsed time.
//!
//! Execution order equals registration order, deterministically, every
//! tick: one tick is one synchronous pass through the list, each system
//! running to completion before the next starts.  The scheduler keeps no
//! per-system state beyond the list itself; the host hands in the
//! elapsed time, so the scheduler never reads a clock of its own.

use vstd::prelude::*;
use crate::ecs::World;

verus! {

/// A unit of per-tick behaviour.  A system has one operation: run once
/// against the world and the elapsed time (in milliseconds since the
/// host loop started).  Systems have no return value; all effects go
/// through world mutation.
///
/// Implementors promise to leave the world well formed; the scheduler's
/// guarantee below relies on every registered system keeping that
/// promise.
pub trait System<V> {
    /// Run this system for one tick.
    fn run(&self, world: &mut World<V>, elapsed_millis: u64)
        requires
            old(world).wf(),
        ensures
            final(world).wf(),
    ;
}

/// The ordered runner of registered systems.  The list is fixed between
/// construction and the host loop's run phase; each `run` call performs
/// one full pass, invoking every system exactly once in registration
/// order, with no retries, no partial execution and no skipped system.
///
/// The systems are held as trait objects, of which the verifier tracks
/// no individual facts (it does track how the world fares under them:
/// each call preserves its invariant).  The number of registrations is
/// therefore counted in a field of its own, kept in step with the list,
/// and `register_system` promises growth in terms of that count.
#[verifier::reject_recursive_types(V)]
pub struct SystemManager<V> {
    systems: Vec<Box<dyn System<V>>>,
    registered: usize,
}

impl<V> SystemManager<V> {
    /// How many systems are registered.
    pub closed spec fn count(self) -> nat {
        self.registered as nat
    }

    /// An empty scheduler.
    pub fn new() -> (m: Self)
        ensures
            m.count() == 0,
    {
        SystemManager { systems: Vec::new(), registered: 0 }
    }

    /// Append a system; it will run after every system registered before
    /// it, and none already registered is displaced.  Only meant to be
    /// called before the host loop's first `run`.  Returns the scheduler
    /// for chaining.
    pub fn register_system(&mut self, system: Box<dyn System<V>>) -> (r: &mut Self)
        requires
            old(self).count() < usize::MAX,
        ensures
            (*r).count() == old(self).count() + 1,
            *final(self) == *final(r),
    {
        self.systems.push(system);
        self.registered = self.registered + 1;
        self
    }

    /// The number of registered systems.
    pub fn len(&self) -> (n: usize)
        ensures
            n == self.count(),
    {
        self.registered
    }

    /// One tick: run every registered system once, strictly in
    /// registration order, handing each the world and the elapsed time.
    pub fn run(&self, world: &mut World<V>, elapsed_millis: u64)
        requires
            old(world).wf(),
        ensures
            final(world).wf(),
    {
        let n = self.systems.len();
        let mut i: usize = 0;
        while i < n
            invariant
                i <= n,
                n == self.systems@.len(),
                world.wf(),
            decreases n - i,
        {
            let system = &self.systems[i];
            system.run(world, elapsed_millis);
            i += 1;
        }
    }
}

} // verus!
