//! The fork-join surface: a `Worker` pool with a fixed worker count chosen
//! once at construction, and a `Scope` on which independent units of work
//! are spawned. Every unit spawned on a scope has finished — its
//! postcondition holds — before the owning `scope` call returns.

use crate::planner::{
    lemma_chunk_plan_sound, lemma_log2_floor_unique, log2_floor, plan_chunk_size, spec_chunk_size,
};
use vstd::arithmetic::power2::pow2;
use vstd::prelude::*;

verus! {

/// The worker count every pool constructed by `Worker::new` in this process
/// carries. Detection of the logical CPU count is outside this library's
/// reach, so `new` falls back to the guaranteed minimum of one worker.
pub open spec fn process_worker_count() -> nat {
    1
}

/// A fixed-size pool of workers. The worker count is set once, by the one
/// internal constructor, and never changes; clones share it. Callers cannot
/// pick a count of their own, so every pool in a process agrees on it.
#[derive(Clone, Copy)]
pub struct Worker {
    workers: usize,
}

/// A handle, valid only inside one `Worker::scope` call, on which units of
/// work are spawned. It is lent to the scope body by reference, so it cannot
/// outlive the call that created it.
pub struct Scope {}

impl Worker {
    /// How many workers this pool runs.
    pub closed spec fn worker_count(self) -> nat {
        self.workers as nat
    }

    /// A pool always has at least one worker.
    #[verifier::type_invariant]
    spec fn type_inv(self) -> bool {
        self.worker_count() >= 1
    }

    // The only place a worker count is chosen: kept internal so that every
    // `Worker` a caller can reach carries the same count.
    pub(crate) fn new_with_cpus() -> (w: Worker)
        ensures
            w.worker_count() == process_worker_count(),
    {
        Worker { workers: 1 }
    }

    /// Constructs a pool sized to this process's worker count. Every pool
    /// built here reports the same `worker_count`.
    pub fn new() -> (w: Worker)
        ensures
            w.worker_count() == process_worker_count(),
    {
        Self::new_with_cpus()
    }

    /// The base-2 logarithm (floor) of the pool's worker count.
    pub fn log_num_cpus(&self) -> (r: u32)
        ensures
            pow2(r as nat) <= self.worker_count() < pow2(r as nat + 1),
    {
        proof {
            use_type_invariant(self);
        }
        log2_floor(self.workers)
    }

    /// Runs `f` with a fresh scope and the chunk size planned for `elements`
    /// over this pool's workers. Every unit of work spawned on the scope has
    /// finished by the time this returns, so whatever `f` ensures of its
    /// result — including effects of spawned units — holds of `r`.
    pub fn scope<F, R>(&self, elements: usize, f: F) -> (r: R) where F: FnOnce(&Scope, usize) -> R
        requires
            forall|s: &Scope|
                #[trigger] call_requires(
                    f,
                    (s, spec_chunk_size(elements as nat, self.worker_count()) as usize),
                ),
        ensures
            exists|s: &Scope|
                #[trigger] call_ensures(
                    f,
                    (s, spec_chunk_size(elements as nat, self.worker_count()) as usize),
                    r,
                ),
    {
        proof {
            use_type_invariant(self);
            lemma_chunk_plan_sound(elements as nat, self.worker_count());
        }
        let chunk_size = match plan_chunk_size(elements, self.workers) {
            Ok(c) => c,
            Err(_) => 0,  // unreachable: the pool always has a worker
        };
        let scope = Scope {};
        f(&scope, chunk_size)
    }
}

/// The join guarantee, as an observation law: if every result the scope body
/// can ensure satisfies a property, then the value `Worker::scope` handed
/// back satisfies it — code running after `scope` returns can rely on the
/// body, spawned units included, being finished.
pub proof fn lemma_join_guarantee<F: FnOnce(&Scope, usize) -> R, R>(
    f: F,
    chunk_size: usize,
    r: R,
    observed: spec_fn(R) -> bool,
)
    requires
        exists|s: &Scope| #[trigger] call_ensures(f, (s, chunk_size), r),
        forall|s: &Scope, ret: R| #[trigger] call_ensures(f, (s, chunk_size), ret) ==> observed(
            ret,
        ),
    ensures
        observed(r),
{
}

/// Pool worker count is stable: two pools that carry this process's worker
/// count agree on it, and any two values `log_num_cpus` can return for them
/// are equal.
pub proof fn lemma_worker_count_stable(w1: Worker, w2: Worker, r1: u32, r2: u32)
    requires
        w1.worker_count() == process_worker_count(),
        w2.worker_count() == process_worker_count(),
        pow2(r1 as nat) <= w1.worker_count() < pow2(r1 as nat + 1),
        pow2(r2 as nat) <= w2.worker_count() < pow2(r2 as nat + 1),
    ensures
        w1.worker_count() == w2.worker_count(),
        r1 == r2,
{
    lemma_log2_floor_unique(process_worker_count(), r1 as nat, r2 as nat);
}

impl Scope {
    /// Registers `f` as a unit of work on this scope and runs it to
    /// completion before the owning `scope` call can return: at return,
    /// whatever `f` ensures — its writes to the exclusively captured chunk —
    /// has happened.
    pub fn spawn<F>(&self, f: F) where F: FnOnce()
        requires
            call_requires(f, ()),
        ensures
            call_ensures(f, (), ()),
    {
        f()
    }
}

} // verus!
