//! Dots and version vectors: the causality substrate every replicated type
//! builds on.
//!
//! A `Dot` names one event of one actor.  A `VClock` maps each actor to the
//! highest counter observed for it; absence means zero.  Its mathematical
//! model is a `Map<u64, u64>` holding exactly the non-zero counters.

use vstd::prelude::*;

verus! {

/// One event: the `counter`-th action originated by `actor`.
#[derive(Clone, Copy, PartialEq, Eq, Structural, Debug, Hash)]
pub struct Dot {
    pub actor: u64,
    pub counter: u64,
}

/// Total order on dots: lexicographic by `(actor, counter)`.
pub open spec fn dot_lt(a: Dot, b: Dot) -> bool {
    a.actor < b.actor || (a.actor == b.actor && a.counter < b.counter)
}

impl Dot {
    /// The next event of the same actor.
    pub fn inc(&self) -> (r: Dot)
        requires
            self.counter < u64::MAX,
        ensures
            r == (Dot { actor: self.actor, counter: (self.counter + 1) as u64 }),
    {
        Dot { actor: self.actor, counter: self.counter + 1 }
    }

    /// Strict lexicographic order on `(actor, counter)`.
    pub fn lt(&self, other: &Dot) -> (r: bool)
        ensures
            r == dot_lt(*self, *other),
    {
        self.actor < other.actor || (self.actor == other.actor && self.counter < other.counter)
    }
}

/// The counter a map assigns to an actor, zero when absent.
pub open spec fn cnt(m: Map<u64, u64>, a: u64) -> u64 {
    if m.dom().contains(a) {
        m[a]
    } else {
        0
    }
}

/// Pointwise order on clock maps.
pub open spec fn c_le(x: Map<u64, u64>, y: Map<u64, u64>) -> bool {
    forall|a: u64| #[trigger] cnt(x, a) <= cnt(y, a)
}

/// Pointwise equality on clock maps.
pub open spec fn c_eqv(x: Map<u64, u64>, y: Map<u64, u64>) -> bool {
    forall|a: u64| #[trigger] cnt(x, a) == cnt(y, a)
}

/// Strict pointwise order: below and not the same map.
pub open spec fn c_lt(x: Map<u64, u64>, y: Map<u64, u64>) -> bool {
    c_le(x, y) && x != y
}

/// A canonical clock map stores no zero counter.
pub open spec fn canon(m: Map<u64, u64>) -> bool {
    forall|a: u64| #[trigger] m.dom().contains(a) ==> m[a] >= 1
}

/// The larger of two counters.
pub open spec fn max64(x: u64, y: u64) -> u64 {
    if x >= y {
        x
    } else {
        y
    }
}

/// Pointwise maximum of two clock maps, in canonical form.
pub open spec fn c_join(x: Map<u64, u64>, y: Map<u64, u64>) -> Map<u64, u64> {
    Map::new(
        |a: u64| cnt(x, a) > 0 || cnt(y, a) > 0,
        |a: u64| max64(cnt(x, a), cnt(y, a)),
    )
}

/// Remove from `x` every component already covered by `y`.
pub open spec fn c_sub(x: Map<u64, u64>, y: Map<u64, u64>) -> Map<u64, u64> {
    Map::new(|a: u64| cnt(x, a) > cnt(y, a), |a: u64| cnt(x, a))
}

/// The canonical map described by a list of dots; on duplicate actors the
/// earliest entry wins.
pub open spec fn clock_map(s: Seq<Dot>) -> Map<u64, u64>
    decreases s.len(),
{
    if s.len() == 0 {
        Map::empty()
    } else {
        clock_map(s.skip(1)).insert(s[0].actor, s[0].counter)
    }
}

/// A version vector: for each actor, the highest counter witnessed.
#[derive(Clone)]
pub struct VClock {
    entries: Vec<Dot>,
}

impl View for VClock {
    type V = Map<u64, u64>;

    closed spec fn view(&self) -> Map<u64, u64> {
        clock_map(self.entries@)
    }
}

proof fn lemma_clock_map_dom(s: Seq<Dot>, a: u64)
    ensures
        clock_map(s).dom().contains(a) <==> exists|i: int| 0 <= i < s.len() && s[i].actor == a,
    decreases s.len(),
{
    if s.len() == 0 {
    } else {
        lemma_clock_map_dom(s.skip(1), a);
        if s[0].actor == a {
            assert(clock_map(s).dom().contains(a));
        } else {
            if clock_map(s).dom().contains(a) {
                let i = choose|i: int| 0 <= i < s.skip(1).len() && s.skip(1)[i].actor == a;
                assert(s[i + 1].actor == a);
            }
            if exists|i: int| 0 <= i < s.len() && s[i].actor == a {
                let i = choose|i: int| 0 <= i < s.len() && s[i].actor == a;
                assert(s.skip(1)[i - 1].actor == a);
            }
        }
    }
}

proof fn lemma_clock_map_first(s: Seq<Dot>, i: int)
    requires
        0 <= i < s.len(),
        forall|j: int| 0 <= j < i ==> s[j].actor != s[i].actor,
    ensures
        clock_map(s).dom().contains(s[i].actor),
        clock_map(s)[s[i].actor] == s[i].counter,
    decreases s.len(),
{
    if i == 0 {
    } else {
        assert forall|j: int| 0 <= j < i - 1 implies (#[trigger] s.skip(1)[j]).actor != s.skip(
            1,
        )[i - 1].actor by {
            assert(s.skip(1)[j] == s[j + 1]);
            assert(s.skip(1)[i - 1] == s[i]);
        }
        lemma_clock_map_first(s.skip(1), i - 1);
        assert(s.skip(1)[i - 1] == s[i]);
        assert(s[0].actor != s[i].actor);
    }
}

proof fn lemma_clock_map_absent(s: Seq<Dot>, a: u64)
    requires
        forall|i: int| 0 <= i < s.len() ==> s[i].actor != a,
    ensures
        !clock_map(s).dom().contains(a),
        cnt(clock_map(s), a) == 0,
{
    lemma_clock_map_dom(s, a);
}

proof fn lemma_clock_map_len(s: Seq<Dot>)
    requires
        forall|i: int, j: int| 0 <= i < j < s.len() ==> s[i].actor != s[j].actor,
    ensures
        clock_map(s).dom().finite(),
        clock_map(s).dom().len() == s.len(),
    decreases s.len(),
{
    if s.len() == 0 {
        assert(clock_map(s).dom() =~= Set::<u64>::empty());
    } else {
        assert(forall|i: int, j: int|
            0 <= i < j < s.skip(1).len() ==> s.skip(1)[i].actor != s.skip(1)[j].actor);
        lemma_clock_map_len(s.skip(1));
        lemma_clock_map_dom(s.skip(1), s[0].actor);
        assert(forall|i: int| 0 <= i < s.skip(1).len() ==> s.skip(1)[i].actor != s[0].actor);
        assert(!clock_map(s.skip(1)).dom().contains(s[0].actor));
        assert(clock_map(s).dom() =~= clock_map(s.skip(1)).dom().insert(s[0].actor));
    }
}

/// Two canonical maps with the same counters everywhere are the same map.
pub proof fn lemma_canonical_eq(x: Map<u64, u64>, y: Map<u64, u64>)
    requires
        canon(x),
        canon(y),
        c_eqv(x, y),
    ensures
        x == y,
{
    assert forall|a: u64| #[trigger] x.dom().contains(a) implies y.dom().contains(a) by {
        assert(cnt(x, a) >= 1);
        assert(cnt(y, a) >= 1);
    }
    assert forall|a: u64| #[trigger] y.dom().contains(a) implies x.dom().contains(a) by {
        assert(cnt(y, a) >= 1);
        assert(cnt(x, a) >= 1);
    }
    assert forall|a: u64| #[trigger] x.dom().contains(a) implies x[a] == y[a] by {
        assert(cnt(x, a) == x[a]);
        assert(cnt(y, a) == y[a]);
    }
    assert(x =~= y);
}

impl VClock {
    /// Every actor occurs once, and no counter is zero.
    pub closed spec fn wf(self) -> bool {
        &&& forall|i: int, j: int|
            0 <= i < j < self.entries@.len() ==> self.entries@[i].actor != self.entries@[j].actor
        &&& forall|i: int| 0 <= i < self.entries@.len() ==> self.entries@[i].counter >= 1
    }

    /// The view of a well-formed clock is canonical.
    pub proof fn lemma_wf_canon(self)
        requires
            self.wf(),
        ensures
            canon(self@),
    {
        assert forall|a: u64| #[trigger] self@.dom().contains(a) implies self@[a] >= 1 by {
            lemma_clock_map_dom(self.entries@, a);
            let i = choose|i: int| 0 <= i < self.entries@.len() && self.entries@[i].actor == a;
            assert(forall|j: int| 0 <= j < i ==> self.entries@[j].actor != self.entries@[i].actor);
            lemma_clock_map_first(self.entries@, i);
        }
    }

    /// The empty clock: the minimum of the order and the identity of `merge`.
    pub fn new() -> (r: VClock)
        ensures
            r.wf(),
            r@ == Map::<u64, u64>::empty(),
    {
        VClock { entries: Vec::new() }
    }

    /// The counter witnessed for `actor`, zero if none.
    pub fn get(&self, actor: u64) -> (r: u64)
        ensures
            r == cnt(self@, actor),
    {
        let n = self.entries.len();
        let mut i: usize = 0;
        while i < n
            invariant
                n == self.entries.len(),
                i <= n,
                forall|j: int| 0 <= j < i ==> self.entries@[j].actor != actor,
            decreases n - i,
        {
            if self.entries[i].actor == actor {
                proof {
                    lemma_clock_map_first(self.entries@, i as int);
                }
                return self.entries[i].counter;
            }
            i += 1;
        }
        proof {
            lemma_clock_map_absent(self.entries@, actor);
        }
        0
    }

    /// A structurally fresh copy with the same contents.
    pub fn duplicate(&self) -> (r: VClock)
        ensures
            r@ == self@,
            r.wf() <==> self.wf(),
    {
        let n = self.entries.len();
        let mut out: Vec<Dot> = Vec::new();
        let mut i: usize = 0;
        while i < n
            invariant
                n == self.entries.len(),
                i <= n,
                out@ == self.entries@.take(i as int),
            decreases n - i,
        {
            out.push(self.entries[i]);
            proof {
                assert(out@ =~= self.entries@.take(i + 1));
            }
            i += 1;
        }
        let r = VClock { entries: out };
        proof {
            assert(r.entries@ =~= self.entries@);
        }
        r
    }

    /// Record one event: raise the actor's counter to at least `d.counter`.
    /// Idempotent, and monotone in both arguments.
    pub fn witness(&mut self, d: Dot)
        requires
            old(self).wf(),
        ensures
            final(self).wf(),
            forall|a: u64| #[trigger]
                cnt(final(self)@, a) == if a == d.actor {
                    max64(cnt(old(self)@, a), d.counter)
                } else {
                    cnt(old(self)@, a)
                },
    {
        let ghost oldseq = self.entries@;
        let n = self.entries.len();
        let mut out: Vec<Dot> = Vec::new();
        let mut found = false;
        let mut i: usize = 0;
        while i < n
            invariant
                n == oldseq.len(),
                self.entries@ == oldseq,
                i <= n,
                out@.len() == i,
                forall|k: int| 0 <= k < i ==> #[trigger] out@[k].actor == oldseq[k].actor,
                forall|k: int| 0 <= k < i ==> #[trigger] out@[k].counter == if oldseq[k].actor
                    == d.actor {
                    max64(oldseq[k].counter, d.counter)
                } else {
                    oldseq[k].counter
                },
                found <==> exists|j: int| 0 <= j < i && oldseq[j].actor == d.actor,
            decreases n - i,
        {
            let e = self.entries[i];
            if e.actor == d.actor {
                let c = if e.counter >= d.counter {
                    e.counter
                } else {
                    d.counter
                };
                out.push(Dot { actor: d.actor, counter: c });
                found = true;
            } else {
                out.push(e);
            }
            i += 1;
        }
        if !found && d.counter >= 1 {
            out.push(d);
        }
        proof {
            let outs = out@;
            let olds = oldseq;
            assert(forall|k1: int, k2: int|
                0 <= k1 < k2 < outs.len() ==> outs[k1].actor != outs[k2].actor);
            assert forall|a: u64| #[trigger]
                cnt(clock_map(outs), a) == if a == d.actor {
                    max64(cnt(clock_map(olds), a), d.counter)
                } else {
                    cnt(clock_map(olds), a)
                } by {
                if exists|j: int| 0 <= j < olds.len() && olds[j].actor == a {
                    let j = choose|j: int| 0 <= j < olds.len() && olds[j].actor == a;
                    assert(forall|k: int| 0 <= k < j ==> olds[k].actor != olds[j].actor);
                    lemma_clock_map_first(olds, j);
                    assert(outs[j].actor == a);
                    assert(forall|k: int| 0 <= k < j ==> outs[k].actor != outs[j].actor);
                    lemma_clock_map_first(outs, j);
                } else {
                    lemma_clock_map_absent(olds, a);
                    if a == d.actor && d.counter >= 1 {
                        assert(!found);
                        let j = outs.len() - 1;
                        assert(outs[j] == d);
                        assert(forall|k: int| 0 <= k < j ==> outs[k].actor != a);
                        lemma_clock_map_first(outs, j);
                    } else {
                        assert(forall|k: int| 0 <= k < outs.len() ==> outs[k].actor != a);
                        lemma_clock_map_absent(outs, a);
                    }
                }
            }
        }
        self.entries = out;
    }

    /// Pointwise maximum with `other`; mutates the receiver.
    /// Associative, commutative and idempotent.
    pub fn merge(&mut self, other: &VClock)
        requires
            old(self).wf(),
            other.wf(),
        ensures
            final(self).wf(),
            forall|a: u64| #[trigger]
                cnt(final(self)@, a) == max64(cnt(old(self)@, a), cnt(other@, a)),
            final(self)@ == c_join(old(self)@, other@),
    {
        let ghost olds = self@;
        let n = other.entries.len();
        let mut i: usize = 0;
        while i < n
            invariant
                n == other.entries@.len(),
                other.wf(),
                i <= n,
                self.wf(),
                forall|j: int| 0 <= j < i ==> #[trigger] cnt(self@, other.entries@[j].actor)
                    == max64(cnt(olds, other.entries@[j].actor), other.entries@[j].counter),
                forall|a: u64|
                    (forall|j: int| 0 <= j < i ==> other.entries@[j].actor != a) ==> #[trigger]
                        cnt(self@, a) == cnt(olds, a),
            decreases n - i,
        {
            let d = other.entries[i];
            self.witness(d);
            proof {
                assert(forall|j: int| 0 <= j < i ==> other.entries@[j].actor != d.actor);
            }
            i += 1;
        }
        proof {
            assert forall|a: u64| #[trigger]
                cnt(self@, a) == max64(cnt(olds, a), cnt(other@, a)) by {
                if exists|j: int| 0 <= j < n && other.entries@[j].actor == a {
                    let j = choose|j: int| 0 <= j < n && other.entries@[j].actor == a;
                    assert(forall|k: int| 0 <= k < j ==> other.entries@[k].actor != a);
                    lemma_clock_map_first(other.entries@, j);
                    assert(cnt(self@, a) == max64(cnt(olds, a), other.entries@[j].counter));
                } else {
                    lemma_clock_map_absent(other.entries@, a);
                }
            }
            self.lemma_wf_canon();
            assert(canon(c_join(olds, other@)));
            assert(c_eqv(self@, c_join(olds, other@)));
            lemma_canonical_eq(self@, c_join(olds, other@));
        }
    }

    /// Drop every component of the receiver already covered by `other`;
    /// keep the rest unchanged.  Used by causal truncation.
    pub fn subtract(&mut self, other: &VClock)
        requires
            old(self).wf(),
        ensures
            final(self).wf(),
            forall|a: u64| #[trigger]
                cnt(final(self)@, a) == if cnt(old(self)@, a) <= cnt(other@, a) {
                    0u64
                } else {
                    cnt(old(self)@, a)
                },
            final(self)@ == c_sub(old(self)@, other@),
    {
        let ghost oldseq = self.entries@;
        let n = self.entries.len();
        let mut out: Vec<Dot> = Vec::new();
        let mut i: usize = 0;
        while i < n
            invariant
                n == oldseq.len(),
                self.entries@ == oldseq,
                self.wf(),
                i <= n,
                forall|k: int| 0 <= k < out@.len() ==> exists|j: int|
                    0 <= j < i && #[trigger] out@[k] == oldseq[j],
                forall|k1: int, k2: int|
                    0 <= k1 < k2 < out@.len() ==> out@[k1].actor != out@[k2].actor,
                forall|j: int|
                    0 <= j < i && oldseq[j].counter > cnt(other@, oldseq[j].actor)
                        ==> #[trigger] cnt(clock_map(out@), oldseq[j].actor) == oldseq[j].counter,
                forall|j: int|
                    0 <= j < i && oldseq[j].counter <= cnt(other@, oldseq[j].actor)
                        ==> #[trigger] cnt(clock_map(out@), oldseq[j].actor) == 0,
                forall|a: u64|
                    (forall|j: int| 0 <= j < i ==> oldseq[j].actor != a) ==> #[trigger]
                        cnt(clock_map(out@), a) == 0,
            decreases n - i,
        {
            let e = self.entries[i];
            let limit = other.get(e.actor);
            proof {
                lemma_clock_map_absent(out@, e.actor);
            }
            if e.counter > limit {
                let ghost prev = out@;
                out.push(e);
                proof {
                    let k = prev.len() as int;
                    assert(out@[k] == oldseq[i as int]);
                    assert forall|a: u64| a != e.actor implies #[trigger] cnt(clock_map(out@), a)
                        == cnt(clock_map(prev), a) by {
                        lemma_push_other(prev, e, a);
                    }
                    assert(forall|j: int| 0 <= j < k ==> out@[j].actor != out@[k].actor);
                    lemma_clock_map_first(out@, k);
                }
            }
            i += 1;
        }
        proof {
            let outs = out@;
            assert forall|a: u64| #[trigger]
                cnt(clock_map(outs), a) == if cnt(clock_map(oldseq), a) <= cnt(other@, a) {
                    0u64
                } else {
                    cnt(clock_map(oldseq), a)
                } by {
                if exists|j: int| 0 <= j < n && oldseq[j].actor == a {
                    let j = choose|j: int| 0 <= j < n && oldseq[j].actor == a;
                    assert(forall|k: int| 0 <= k < j ==> oldseq[k].actor != a);
                    lemma_clock_map_first(oldseq, j);
                } else {
                    lemma_clock_map_absent(oldseq, a);
                }
            }
            assert(canon(c_sub(clock_map(oldseq), other@)));
            assert(c_eqv(clock_map(outs), c_sub(clock_map(oldseq), other@)));
            assert forall|a: u64| #[trigger] clock_map(outs).dom().contains(a) implies
                clock_map(outs)[a] >= 1 by {
                lemma_clock_map_dom(outs, a);
                let k = choose|k: int| 0 <= k < outs.len() && outs[k].actor == a;
                assert(forall|j: int| 0 <= j < k ==> outs[j].actor != outs[k].actor);
                lemma_clock_map_first(outs, k);
                let j = choose|j: int| 0 <= j < n && outs[k] == oldseq[j];
            }
            lemma_canonical_eq(clock_map(outs), c_sub(clock_map(oldseq), other@));
        }
        self.entries = out;
    }

    /// True exactly when no event has been witnessed.
    pub fn is_empty(&self) -> (r: bool)
        ensures
            r <==> self@ == Map::<u64, u64>::empty(),
    {
        proof {
            if self.entries@.len() == 0 {
            } else {
                lemma_clock_map_dom(self.entries@, self.entries@[0].actor);
                assert(self@.dom().contains(self.entries@[0].actor));
                assert(self@ != Map::<u64, u64>::empty());
            }
        }
        self.entries.len() == 0
    }

    /// How many actors have been witnessed.
    pub fn len(&self) -> (r: usize)
        requires
            self.wf(),
        ensures
            self@.dom().finite(),
            r == self@.dom().len(),
    {
        proof {
            lemma_clock_map_len(self.entries@);
        }
        self.entries.len()
    }

    /// The dot the next event of `actor` would carry; pure.
    pub fn inc(&self, actor: u64) -> (r: Dot)
        requires
            cnt(self@, actor) < u64::MAX,
        ensures
            r == (Dot { actor, counter: (cnt(self@, actor) + 1) as u64 }),
    {
        Dot { actor, counter: self.get(actor) + 1 }
    }

    /// Bump `actor` by one event and return the dot that records it.
    pub fn apply_inc(&mut self, actor: u64) -> (r: Dot)
        requires
            old(self).wf(),
            cnt(old(self)@, actor) < u64::MAX,
        ensures
            final(self).wf(),
            r == (Dot { actor, counter: (cnt(old(self)@, actor) + 1) as u64 }),
            forall|a: u64| #[trigger]
                cnt(final(self)@, a) == if a == actor {
                    (cnt(old(self)@, a) + 1) as u64
                } else {
                    cnt(old(self)@, a)
                },
    {
        let d = self.inc(actor);
        self.witness(d);
        d
    }

    /// Whether every component of the receiver is covered by `other`.
    pub fn le(&self, other: &VClock) -> (r: bool)
        requires
            self.wf(),
        ensures
            r == c_le(self@, other@),
    {
        let n = self.entries.len();
        let mut i: usize = 0;
        while i < n
            invariant
                n == self.entries@.len(),
                self.wf(),
                i <= n,
                forall|j: int| 0 <= j < i ==> #[trigger] self.entries@[j].counter <= cnt(
                    other@,
                    self.entries@[j].actor,
                ),
            decreases n - i,
        {
            let e = self.entries[i];
            if e.counter > other.get(e.actor) {
                proof {
                    assert(forall|k: int| 0 <= k < i ==> self.entries@[k].actor != e.actor);
                    lemma_clock_map_first(self.entries@, i as int);
                    assert(cnt(self@, e.actor) == e.counter);
                }
                return false;
            }
            i += 1;
        }
        proof {
            assert forall|a: u64| #[trigger] cnt(self@, a) <= cnt(other@, a) by {
                if exists|j: int| 0 <= j < n && self.entries@[j].actor == a {
                    let j = choose|j: int| 0 <= j < n && self.entries@[j].actor == a;
                    assert(forall|k: int| 0 <= k < j ==> self.entries@[k].actor != a);
                    lemma_clock_map_first(self.entries@, j);
                } else {
                    lemma_clock_map_absent(self.entries@, a);
                }
            }
        }
        true
    }

    /// Whether the receiver is strictly below `other`.
    pub fn lt(&self, other: &VClock) -> (r: bool)
        requires
            self.wf(),
            other.wf(),
        ensures
            r == c_lt(self@, other@),
    {
        let below = self.le(other);
        let above = other.le(self);
        proof {
            self.lemma_wf_canon();
            other.lemma_wf_canon();
            if below && !above {
                assert(self@ != other@);
            }
            if below && above {
                lemma_canonical_eq(self@, other@);
            }
        }
        below && !above
    }

    /// Classify the pair: equal, strictly ordered, or concurrent.
    pub fn compare(&self, other: &VClock) -> (r: ClockOrdering)
        requires
            self.wf(),
            other.wf(),
        ensures
            r == ClockOrdering::Equal <==> self@ == other@,
            r == ClockOrdering::Less <==> c_lt(self@, other@),
            r == ClockOrdering::Greater <==> c_lt(other@, self@),
            r == ClockOrdering::Concurrent <==> (!c_le(self@, other@) && !c_le(other@, self@)),
    {
        let below = self.le(other);
        let above = other.le(self);
        proof {
            self.lemma_wf_canon();
            other.lemma_wf_canon();
            if below && above {
                lemma_canonical_eq(self@, other@);
            }
        }
        if below && above {
            ClockOrdering::Equal
        } else if below {
            ClockOrdering::Less
        } else if above {
            ClockOrdering::Greater
        } else {
            ClockOrdering::Concurrent
        }
    }
}

proof fn lemma_push_other(s: Seq<Dot>, d: Dot, a: u64)
    requires
        a != d.actor,
    ensures
        cnt(clock_map(s.push(d)), a) == cnt(clock_map(s), a),
{
    lemma_clock_map_push(s, d);
}

proof fn lemma_clock_map_push(s: Seq<Dot>, d: Dot)
    ensures
        forall|a: u64| a != d.actor ==> #[trigger] cnt(clock_map(s.push(d)), a) == cnt(
            clock_map(s),
            a,
        ),
    decreases s.len(),
{
    if s.len() == 0 {
        assert(s.push(d)[0] == d);
        assert(s.push(d).skip(1) =~= Seq::<Dot>::empty());
        assert(clock_map(s.push(d)) == clock_map(s.push(d).skip(1)).insert(d.actor, d.counter));
        assert forall|a: u64| a != d.actor implies #[trigger] cnt(clock_map(s.push(d)), a) == cnt(
            clock_map(s),
            a,
        ) by {
            assert(!clock_map(s.push(d)).dom().contains(a));
        }
    } else {
        lemma_clock_map_push(s.skip(1), d);
        assert(s.push(d).skip(1) =~= s.skip(1).push(d));
        assert(s.push(d)[0] == s[0]);
        assert(clock_map(s.push(d)) == clock_map(s.skip(1).push(d)).insert(
            s[0].actor,
            s[0].counter,
        ));
        assert(clock_map(s) == clock_map(s.skip(1)).insert(s[0].actor, s[0].counter));
        assert forall|a: u64| a != d.actor implies #[trigger] cnt(clock_map(s.push(d)), a) == cnt(
            clock_map(s),
            a,
        ) by {
            assert(cnt(clock_map(s.skip(1).push(d)), a) == cnt(clock_map(s.skip(1)), a));
        }
    }
}

/// The four outcomes of comparing two version vectors.
#[derive(Clone, Copy, PartialEq, Eq, Structural, Debug)]
pub enum ClockOrdering {
    Less,
    Equal,
    Greater,
    Concurrent,
}

impl PartialEq for VClock {
    /// Clock equality is semantic: the same counter for every actor.
    fn eq(&self, other: &Self) -> (r: bool) {
        let n1 = self.entries.len();
        let mut i: usize = 0;
        while i < n1
            invariant
                n1 == self.entries@.len(),
                i <= n1,
                forall|j: int| 0 <= j < i ==> #[trigger] cnt(self@, self.entries@[j].actor) == cnt(
                    other@,
                    self.entries@[j].actor,
                ),
            decreases n1 - i,
        {
            let a = self.entries[i].actor;
            if self.get(a) != other.get(a) {
                proof {
                    assert(!c_eqv(self@, other@));
                }
                return false;
            }
            i += 1;
        }
        let n2 = other.entries.len();
        let mut k: usize = 0;
        while k < n2
            invariant
                n1 == self.entries@.len(),
                n2 == other.entries@.len(),
                k <= n2,
                forall|j: int| 0 <= j < n1 ==> #[trigger] cnt(self@, self.entries@[j].actor)
                    == cnt(other@, self.entries@[j].actor),
                forall|j: int| 0 <= j < k ==> #[trigger] cnt(self@, other.entries@[j].actor)
                    == cnt(other@, other.entries@[j].actor),
            decreases n2 - k,
        {
            let a = other.entries[k].actor;
            if self.get(a) != other.get(a) {
                proof {
                    assert(!c_eqv(self@, other@));
                }
                return false;
            }
            k += 1;
        }
        proof {
            assert forall|a: u64| #[trigger] cnt(self@, a) == cnt(other@, a) by {
                if exists|j: int| 0 <= j < n1 && self.entries@[j].actor == a {
                } else {
                    lemma_clock_map_absent(self.entries@, a);
                    if exists|j: int| 0 <= j < n2 && other.entries@[j].actor == a {
                    } else {
                        lemma_clock_map_absent(other.entries@, a);
                    }
                }
            }
        }
        true
    }
}

impl vstd::std_specs::cmp::PartialEqSpecImpl for VClock {
    open spec fn obeys_eq_spec() -> bool {
        true
    }

    open spec fn eq_spec(&self, other: &Self) -> bool {
        c_eqv(self@, other@)
    }
}

} // verus!
