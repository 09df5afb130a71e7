//! Context objects: the snapshots a replica hands to the host so that it can
//! derive a properly causal operation without observing replica internals.

use vstd::prelude::*;

use crate::vclock::cnt;
use crate::vclock::Dot;
use crate::vclock::VClock;

verus! {

/// What a read returns: the value, the clock a fresh write must carry, and
/// the clock a remove must reference.
pub struct ReadCtx<V> {
    pub add_clock: VClock,
    pub rm_clock: VClock,
    pub val: V,
}

/// The causal timestamp of a forthcoming write: the reader's view bumped at
/// the writing actor, together with the dot that names the write itself.
pub struct AddCtx {
    pub clock: VClock,
    pub dot: Dot,
}

impl<V> ReadCtx<V> {
    /// The only sanctioned way to obtain an operation's causal timestamp:
    /// bump the read clock at the host-supplied actor.
    pub fn derive_add_ctx(self, actor: u64) -> (r: AddCtx)
        requires
            self.add_clock.wf(),
            cnt(self.add_clock@, actor) < u64::MAX,
        ensures
            r.clock.wf(),
            forall|a: u64| #[trigger]
                cnt(r.clock@, a) == if a == actor {
                    (cnt(self.add_clock@, a) + 1) as u64
                } else {
                    cnt(self.add_clock@, a)
                },
            r.dot == (Dot { actor, counter: (cnt(self.add_clock@, actor) + 1) as u64 }),
    {
        let mut clock = self.add_clock;
        let dot = clock.apply_inc(actor);
        AddCtx { clock, dot }
    }
}

} // verus!
