//! Multi-value register: on concurrent writes every value whose causal
//! history is not dominated is retained.
//!
//! The state is modelled as a set of pairs `(clock map, value)`.  `apply`
//! removes every entry covered by the incoming write and appends the write
//! unless a strictly later witness is already present; `merge` keeps exactly
//! the entries of the union that no other entry strictly dominates.

use vstd::prelude::*;

use crate::ctx::AddCtx;
use crate::ctx::ReadCtx;
use crate::vclock::c_join;
use crate::vclock::c_le;
use crate::vclock::c_lt;
use crate::vclock::c_sub;
use crate::vclock::c_eqv;
use crate::vclock::canon;
use crate::vclock::cnt;
use crate::vclock::lemma_canonical_eq;
use crate::vclock::max64;
use crate::vclock::VClock;

verus! {

/// The capabilities a value stored in a register needs: an equality test and
/// a copy, each with its meaning pinned down.
pub trait Val: Sized {
    /// A copy equal to the original.
    fn dup(&self) -> (r: Self)
        ensures
            r == *self,
    ;

    /// Value equality.
    fn val_eq(&self, other: &Self) -> (r: bool)
        ensures
            r <==> *self == *other,
    ;
}

impl Val for u8 {
    fn dup(&self) -> (r: u8)
        ensures
            r == *self,
    {
        *self
    }

    fn val_eq(&self, other: &u8) -> (r: bool)
        ensures
            r <==> *self == *other,
    {
        *self == *other
    }
}

impl Val for u64 {
    fn dup(&self) -> (r: u64)
        ensures
            r == *self,
    {
        *self
    }

    fn val_eq(&self, other: &u64) -> (r: bool)
        ensures
            r <==> *self == *other,
    {
        *self == *other
    }
}

impl Val for bool {
    fn dup(&self) -> (r: bool)
        ensures
            r == *self,
    {
        *self
    }

    fn val_eq(&self, other: &bool) -> (r: bool)
        ensures
            r <==> *self == *other,
    {
        *self == *other
    }
}

impl Val for char {
    fn dup(&self) -> (r: char)
        ensures
            r == *self,
    {
        *self
    }

    fn val_eq(&self, other: &char) -> (r: bool)
        ensures
            r <==> *self == *other,
    {
        *self == *other
    }
}

/// The set of entries a sequence of entries describes.
pub open spec fn seq_entries<V>(s: Seq<(Map<u64, u64>, V)>) -> Set<(Map<u64, u64>, V)> {
    Set::new(|e: (Map<u64, u64>, V)| s.contains(e))
}

/// Whether some entry of `s` strictly dominates the clock of `e`.
pub open spec fn dominated<V>(e: (Map<u64, u64>, V), s: Set<(Map<u64, u64>, V)>) -> bool {
    exists|f: (Map<u64, u64>, V)| #[trigger] s.contains(f) && c_lt(e.0, f.0)
}

/// The entries kept by a put: drop everything the write covers, then append
/// the write unless a strictly later entry remains.  An empty clock is a
/// no-op.
pub open spec fn put_kept<V>(s: Set<(Map<u64, u64>, V)>, c: Map<u64, u64>) -> Set<
    (Map<u64, u64>, V),
> {
    s.filter(|e: (Map<u64, u64>, V)| !c_le(e.0, c))
}

/// Whether the put would be appended: no surviving entry is strictly later.
pub open spec fn put_adds<V>(s: Set<(Map<u64, u64>, V)>, c: Map<u64, u64>) -> bool {
    !(exists|e: (Map<u64, u64>, V)| #[trigger] put_kept(s, c).contains(e) && c_lt(c, e.0))
}

/// The state after delivering `Put { c, v }` to state `s`.
pub open spec fn put_set<V>(s: Set<(Map<u64, u64>, V)>, c: Map<u64, u64>, v: V) -> Set<
    (Map<u64, u64>, V),
> {
    if c == Map::<u64, u64>::empty() {
        s
    } else if put_adds(s, c) {
        put_kept(s, c).insert((c, v))
    } else {
        put_kept(s, c)
    }
}

/// The join of two states: every entry of the union that no entry of the
/// union strictly dominates.
pub open spec fn merge_set<V>(a: Set<(Map<u64, u64>, V)>, b: Set<(Map<u64, u64>, V)>) -> Set<
    (Map<u64, u64>, V),
> {
    a.union(b).filter(|e: (Map<u64, u64>, V)| !dominated(e, a.union(b)))
}

/// The state after causal truncation by `k`: each entry keeps only the part
/// of its clock not covered by `k`; entries fully covered disappear.
pub open spec fn trunc_set<V>(s: Set<(Map<u64, u64>, V)>, k: Map<u64, u64>) -> Set<
    (Map<u64, u64>, V),
> {
    Set::new(
        |e2: (Map<u64, u64>, V)|
            exists|e: (Map<u64, u64>, V)|
                #[trigger] s.contains(e) && c_sub(e.0, k) != Map::<u64, u64>::empty() && e2 == (
                    c_sub(e.0, k),
                    e.1,
                ),
    )
}

/// The join of all entry clocks of a state, in storage order.
pub open spec fn clocks_join<V>(s: Seq<(Map<u64, u64>, V)>) -> Map<u64, u64>
    decreases s.len(),
{
    if s.len() == 0 {
        Map::empty()
    } else {
        c_join(clocks_join(s.drop_last()), s.last().0)
    }
}

/// A multi-value register.
#[derive(Clone)]
pub struct MVReg<V> {
    vals: Vec<(VClock, V)>,
}

/// The one operation of the register: put a value under a causal clock.
#[derive(Clone)]
pub enum Op<V> {
    /// Put a value; `clock` is the causal context of the write.
    Put { clock: VClock, val: V },
}

/// The clock map an op carries.
pub open spec fn put_clock<V>(op: Op<V>) -> Map<u64, u64> {
    match op {
        Op::Put { clock, .. } => clock@,
    }
}

/// The value an op carries.
pub open spec fn put_val<V>(op: Op<V>) -> V {
    match op {
        Op::Put { clock: _, val } => val,
    }
}

/// A well-formed op carries a well-formed clock.
pub open spec fn op_wf<V>(op: Op<V>) -> bool {
    match op {
        Op::Put { clock, .. } => clock.wf(),
    }
}

impl<V> View for MVReg<V> {
    type V = Seq<(Map<u64, u64>, V)>;

    closed spec fn view(&self) -> Seq<(Map<u64, u64>, V)> {
        self.vals@.map(|i: int, e: (VClock, V)| (e.0@, e.1))
    }
}

impl<V> MVReg<V> {
    /// The unordered collection of entries the register holds.
    pub open spec fn entries(self) -> Set<(Map<u64, u64>, V)> {
        seq_entries(self@)
    }

    /// Entry clocks are well-formed version vectors and never empty, and no
    /// `(clock, value)` pair is stored twice, so the read list mirrors the
    /// entry collection without repetition.
    pub closed spec fn wf(self) -> bool {
        &&& forall|i: int| 0 <= i < self.vals@.len() ==> (#[trigger] self.vals@[i].0).wf()
        &&& forall|i: int|
            0 <= i < self.vals@.len() ==> (#[trigger] self.vals@[i].0)@ != Map::<u64, u64>::empty()
        &&& forall|i: int, j: int|
            0 <= i < j < self.vals@.len() ==> ((#[trigger] self.vals@[i]).0@, self.vals@[i].1) != (
            (#[trigger] self.vals@[j]).0@,
            self.vals@[j].1,
            )
    }

    /// A well-formed register stores each entry once: its model sequence has
    /// no duplicates.
    pub proof fn lemma_wf_no_duplicates(self)
        requires
            self.wf(),
        ensures
            self@.no_duplicates(),
    {
        assert forall|i: int, j: int| 0 <= i < j < self@.len() implies self@[i] != self@[j] by {
            assert(self@[i] == (self.vals@[i].0@, self.vals@[i].1));
            assert(self@[j] == (self.vals@[j].0@, self.vals@[j].1));
        }
    }

    /// Every entry clock of a well-formed register is canonical and not empty.
    pub proof fn lemma_wf_entries(self)
        requires
            self.wf(),
        ensures
            forall|e: (Map<u64, u64>, V)| #[trigger]
                self.entries().contains(e) ==> canon(e.0) && e.0 != Map::<u64, u64>::empty(),
    {
        assert forall|e: (Map<u64, u64>, V)| #[trigger] self.entries().contains(e) implies canon(
            e.0,
        ) && e.0 != Map::<u64, u64>::empty() by {
            let i = choose|i: int| 0 <= i < self@.len() && self@[i] == e;
            assert(self@[i] == (self.vals@[i].0@, self.vals@[i].1));
            self.vals@[i].0.lemma_wf_canon();
        }
    }
}

/// The entries of a sequence surviving a put's removal pass, in order.
pub open spec fn kept_of<V>(s: Seq<(Map<u64, u64>, V)>, c: Map<u64, u64>) -> Seq<
    (Map<u64, u64>, V),
>
    decreases s.len(),
{
    if s.len() == 0 {
        Seq::empty()
    } else if !c_le(s.last().0, c) {
        kept_of(s.drop_last(), c).push(s.last())
    } else {
        kept_of(s.drop_last(), c)
    }
}

proof fn lemma_seq_entries_push<V>(s: Seq<(Map<u64, u64>, V)>, x: (Map<u64, u64>, V))
    ensures
        seq_entries(s.push(x)) == seq_entries(s).insert(x),
{
    assert forall|e: (Map<u64, u64>, V)| #[trigger] seq_entries(s.push(x)).contains(e) implies
        seq_entries(s).insert(x).contains(e) by {
        let i = choose|i: int| 0 <= i < s.push(x).len() && s.push(x)[i] == e;
        if i < s.len() {
            assert(s[i] == e);
            assert(s.contains(e));
        } else {
            assert(e == x);
        }
    }
    assert forall|e: (Map<u64, u64>, V)| #[trigger] seq_entries(s).insert(x).contains(e) implies
        seq_entries(s.push(x)).contains(e) by {
        if e == x {
            assert(s.push(x)[s.len() as int] == x);
            assert(s.push(x).contains(e));
        } else {
            let i = choose|i: int| 0 <= i < s.len() && s[i] == e;
            assert(s.push(x)[i] == e);
            assert(s.push(x).contains(e));
        }
    }
    assert(seq_entries(s.push(x)) =~= seq_entries(s).insert(x));
}

/// Two well-formed registers holding the same entry collection hold the
/// same entries with the same multiplicities: their read lists are
/// permutations of one another.
pub proof fn lemma_entries_fix_read<V>(a: MVReg<V>, b: MVReg<V>)
    requires
        a.wf(),
        b.wf(),
        a.entries() == b.entries(),
    ensures
        a@.to_multiset() == b@.to_multiset(),
{
    broadcast use vstd::seq_lib::group_to_multiset_ensures;

    a.lemma_wf_no_duplicates();
    b.lemma_wf_no_duplicates();
    a@.lemma_multiset_has_no_duplicates();
    b@.lemma_multiset_has_no_duplicates();
    assert forall|e: (Map<u64, u64>, V)| #[trigger]
        a@.to_multiset().count(e) == b@.to_multiset().count(e) by {
        assert(a@.contains(e) <==> a.entries().contains(e));
        assert(b@.contains(e) <==> b.entries().contains(e));
        if a@.contains(e) {
            assert(a@.to_multiset().count(e) == 1);
            assert(b@.to_multiset().count(e) == 1);
        } else {
            assert(a@.to_multiset().count(e) == 0);
            assert(b@.to_multiset().count(e) == 0);
        }
    }
    assert(a@.to_multiset() =~= b@.to_multiset());
}

proof fn lemma_kept_of_distinct<V>(s: Seq<(Map<u64, u64>, V)>, c: Map<u64, u64>)
    requires
        forall|i: int, j: int| 0 <= i < j < s.len() ==> s[i] != s[j],
    ensures
        forall|i: int, j: int|
            0 <= i < j < kept_of(s, c).len() ==> kept_of(s, c)[i] != kept_of(s, c)[j],
        forall|k: int|
            0 <= k < kept_of(s, c).len() ==> s.contains(#[trigger] kept_of(s, c)[k]) && !c_le(
                kept_of(s, c)[k].0,
                c,
            ),
    decreases s.len(),
{
    if s.len() == 0 {
    } else {
        assert(forall|i: int, j: int|
            0 <= i < j < s.drop_last().len() ==> s.drop_last()[i] != s.drop_last()[j]);
        lemma_kept_of_distinct(s.drop_last(), c);
        assert forall|k: int| 0 <= k < kept_of(s.drop_last(), c).len() implies s.contains(
            #[trigger] kept_of(s.drop_last(), c)[k],
        ) by {
            let e = kept_of(s.drop_last(), c)[k];
            assert(s.drop_last().contains(e));
            let m = choose|m: int| 0 <= m < s.drop_last().len() && s.drop_last()[m] == e;
            assert(s[m] == e);
        }
        if !c_le(s.last().0, c) {
            let prev = kept_of(s.drop_last(), c);
            let cur = kept_of(s, c);
            assert(cur == prev.push(s.last()));
            assert(s.contains(s.last())) by {
                assert(s[s.len() - 1] == s.last());
            }
            assert forall|k: int| 0 <= k < prev.len() implies prev[k] != s.last() by {
                assert(s.drop_last().contains(prev[k]));
                let m = choose|m: int| 0 <= m < s.drop_last().len() && s.drop_last()[m] == prev[k];
                assert(s[m] == prev[k]);
                assert(s[m] != s[s.len() - 1]);
            }
            assert forall|i: int, j: int| 0 <= i < j < cur.len() implies cur[i] != cur[j] by {
                if j < prev.len() {
                    assert(cur[i] == prev[i]);
                    assert(cur[j] == prev[j]);
                } else {
                    assert(cur[i] == prev[i]);
                    assert(cur[j] == s.last());
                }
            }
            assert forall|k: int| 0 <= k < cur.len() implies s.contains(#[trigger] cur[k])
                && !c_le(cur[k].0, c) by {
                if k < prev.len() {
                    assert(cur[k] == prev[k]);
                } else {
                    assert(cur[k] == s.last());
                }
            }
        } else {
            let cur = kept_of(s, c);
            assert(cur == kept_of(s.drop_last(), c));
            assert forall|k: int| 0 <= k < cur.len() implies s.contains(#[trigger] cur[k])
                && !c_le(cur[k].0, c) by {
            }
        }
    }
}

proof fn lemma_kept_of_set<V>(s: Seq<(Map<u64, u64>, V)>, c: Map<u64, u64>)
    ensures
        seq_entries(kept_of(s, c)) == put_kept(seq_entries(s), c),
    decreases s.len(),
{
    if s.len() == 0 {
        assert(seq_entries(kept_of(s, c)) =~= put_kept(seq_entries(s), c));
    } else {
        lemma_kept_of_set(s.drop_last(), c);
        assert(s.drop_last().push(s.last()) =~= s);
        lemma_seq_entries_push(s.drop_last(), s.last());
        if !c_le(s.last().0, c) {
            lemma_seq_entries_push(kept_of(s.drop_last(), c), s.last());
        }
        assert(seq_entries(kept_of(s, c)) =~= put_kept(seq_entries(s), c));
    }
}

impl<V: Val> MVReg<V> {
    /// An empty register: `read` returns no values under the empty clock.
    pub fn new() -> (r: Self)
        ensures
            r.wf(),
            r@ == Seq::<(Map<u64, u64>, V)>::empty(),
            r.entries() == Set::<(Map<u64, u64>, V)>::empty(),
    {
        let r = MVReg { vals: Vec::new() };
        proof {
            assert(r@ =~= Seq::<(Map<u64, u64>, V)>::empty());
            assert(r.entries() =~= Set::<(Map<u64, u64>, V)>::empty());
        }
        r
    }

    /// Author a write. Pure: the register itself is untouched; the returned
    /// op carries the context's clock and the value.
    pub fn set(&self, val: V, ctx: AddCtx) -> (r: Op<V>)
        ensures
            put_clock(r) == ctx.clock@,
            put_val(r) == val,
            ctx.clock.wf() ==> op_wf(r),
    {
        Op::Put { clock: ctx.clock, val }
    }

    /// Deliver a put.  Every entry the write covers is dropped, and the
    /// write is appended unless some remaining entry is strictly later.
    pub fn apply(&mut self, op: &Op<V>)
        requires
            old(self).wf(),
            op_wf(*op),
        ensures
            final(self).wf(),
            final(self).entries() == put_set(old(self).entries(), put_clock(*op), put_val(*op)),
    {
        match op {
            Op::Put { clock, val } => {
                if clock.is_empty() {
                    return;
                }
                let ghost c = clock@;
                let ghost oldview = self@;
                let n = self.vals.len();
                let mut kept: Vec<(VClock, V)> = Vec::new();
                let mut i: usize = 0;
                while i < n
                    invariant
                        self.wf(),
                        n == self.vals@.len(),
                        self@ == oldview,
                        clock.wf(),
                        c == clock@,
                        i <= n,
                        forall|k: int|
                            0 <= k < kept@.len() ==> (#[trigger] kept@[k].0).wf() && kept@[k].0@
                                != Map::<u64, u64>::empty(),
                        kept@.map(|k: int, e: (VClock, V)| (e.0@, e.1)) == kept_of(
                            oldview.take(i as int),
                            c,
                        ),
                    decreases n - i,
                {
                    let e0 = self.vals[i].0.duplicate();
                    let keep = !e0.le(clock);
                    proof {
                        assert(self@[i as int] == (self.vals@[i as int].0@, self.vals@[i as int].1));
                        assert(oldview.take(i + 1).drop_last() =~= oldview.take(i as int));
                        assert(oldview.take(i + 1).last() == oldview[i as int]);
                    }
                    if keep {
                        let e1 = self.vals[i].1.dup();
                        kept.push((e0, e1));
                        proof {
                            assert(kept@.map(|k: int, e: (VClock, V)| (e.0@, e.1)) =~= kept_of(
                                oldview.take(i + 1),
                                c,
                            ));
                        }
                    } else {
                        proof {
                            assert(kept@.map(|k: int, e: (VClock, V)| (e.0@, e.1)) =~= kept_of(
                                oldview.take(i + 1),
                                c,
                            ));
                        }
                    }
                    i += 1;
                }
                let ghost keptview = kept@.map(|k: int, e: (VClock, V)| (e.0@, e.1));
                proof {
                    assert(oldview.take(n as int) =~= oldview);
                    lemma_kept_of_set(oldview, c);
                    assert(keptview == kept_of(oldview, c));
                    assert(seq_entries(keptview) == put_kept(seq_entries(oldview), c));
                    assert forall|i: int, j: int| 0 <= i < j < oldview.len() implies oldview[i]
                        != oldview[j] by {
                        assert(oldview[i] == (old(self).vals@[i].0@, old(self).vals@[i].1));
                        assert(oldview[j] == (old(self).vals@[j].0@, old(self).vals@[j].1));
                    }
                    lemma_kept_of_distinct(oldview, c);
                    assert(forall|i: int, j: int|
                        0 <= i < j < keptview.len() ==> keptview[i] != keptview[j]);
                    assert(forall|k: int|
                        0 <= k < keptview.len() ==> !c_le((#[trigger] keptview[k]).0, c));
                }
                let m = kept.len();
                let mut later = false;
                let mut j: usize = 0;
                while j < m
                    invariant
                        m == kept@.len(),
                        clock.wf(),
                        c == clock@,
                        keptview == kept@.map(|k: int, e: (VClock, V)| (e.0@, e.1)),
                        forall|k: int|
                            0 <= k < kept@.len() ==> (#[trigger] kept@[k].0).wf() && kept@[k].0@
                                != Map::<u64, u64>::empty(),
                        j <= m,
                        later <==> exists|k: int| 0 <= k < j && c_lt(c, (#[trigger] kept@[k].0)@),
                    decreases m - j,
                {
                    if clock.lt(&kept[j].0) {
                        later = true;
                    }
                    j += 1;
                }
                proof {
                    assert(seq_entries(keptview) == put_kept(seq_entries(oldview), c));
                    if later {
                        let k = choose|k: int| 0 <= k < m && c_lt(c, (kept@[k].0)@);
                        assert(keptview[k] == (kept@[k].0@, kept@[k].1));
                        assert(keptview.contains(keptview[k]));
                        assert(put_kept(seq_entries(oldview), c).contains(keptview[k]));
                        assert(!put_adds(seq_entries(oldview), c));
                    } else {
                        if exists|e: (Map<u64, u64>, V)| #[trigger] put_kept(
                            seq_entries(oldview),
                            c,
                        ).contains(e) && c_lt(c, e.0) {
                            let e = choose|e: (Map<u64, u64>, V)| #[trigger] put_kept(
                                seq_entries(oldview),
                                c,
                            ).contains(e) && c_lt(c, e.0);
                            assert(seq_entries(keptview).contains(e));
                            assert(keptview.contains(e));
                            let k = choose|k: int| 0 <= k < keptview.len() && keptview[k] == e;
                            assert(keptview[k] == (kept@[k].0@, kept@[k].1));
                            assert(false);
                        }
                        assert(put_adds(seq_entries(oldview), c));
                    }
                }
                proof {
                    assert(forall|i: int, j: int|
                        0 <= i < j < keptview.len() ==> keptview[i] != keptview[j]);
                    assert(forall|k: int|
                        0 <= k < keptview.len() ==> !c_le((#[trigger] keptview[k]).0, c));
                }
                if !later {
                    let cdup = clock.duplicate();
                    let vdup = val.dup();
                    kept.push((cdup, vdup));
                    proof {
                        lemma_seq_entries_push(keptview, (c, put_val(*op)));
                        assert(kept@.map(|k: int, e: (VClock, V)| (e.0@, e.1)) =~= keptview.push(
                            (c, put_val(*op)),
                        ));
                        assert(c_le(c, c));
                        assert forall|k: int| 0 <= k < keptview.len() implies keptview[k] != (
                            c,
                            put_val(*op),
                        ) by {
                            assert(!c_le(keptview[k].0, c));
                        }
                    }
                }
                self.vals = kept;
                proof {
                    let fview = kept@.map(|k: int, e: (VClock, V)| (e.0@, e.1));
                    assert(self@ == fview);
                    assert forall|i: int, j: int| 0 <= i < j < self.vals@.len() implies ((
                    #[trigger] self.vals@[i]).0@, self.vals@[i].1) != (
                    (#[trigger] self.vals@[j]).0@,
                    self.vals@[j].1,
                    ) by {
                        assert(fview[i] == (self.vals@[i].0@, self.vals@[i].1));
                        assert(fview[j] == (self.vals@[j].0@, self.vals@[j].1));
                        assert(fview[i] != fview[j]);
                    }
                }
            },
        }
    }

    /// Join with another register: keep exactly the entries of the union of
    /// both entry collections that no entry of the union strictly dominates.
    pub fn merge(&mut self, other: &Self)
        requires
            old(self).wf(),
            other.wf(),
        ensures
            final(self).wf(),
            final(self).entries() == merge_set(old(self).entries(), other.entries()),
    {
        let ghost u = old(self).entries().union(other.entries());
        let ghost sview = self@;
        let ghost oview = other@;
        let n1 = self.vals.len();
        let n2 = other.vals.len();
        let mut out: Vec<(VClock, V)> = Vec::new();
        let mut i: usize = 0;
        while i < n1
            invariant
                self.wf(),
                other.wf(),
                sview == self@,
                oview == other@,
                u == seq_entries(sview).union(seq_entries(oview)),
                n1 == self.vals@.len(),
                n2 == other.vals@.len(),
                i <= n1,
                forall|k: int|
                    0 <= k < out@.len() ==> (#[trigger] out@[k].0).wf() && out@[k].0@ != Map::<
                        u64,
                        u64,
                    >::empty(),
                forall|k: int|
                    0 <= k < out@.len() ==> u.contains(
                        (#[trigger] out@[k].0@, out@[k].1),
                    ) && !dominated((out@[k].0@, out@[k].1), u),
                forall|j: int|
                    0 <= j < i && !dominated(#[trigger] sview[j], u) ==> seq_entries(
                        out@.map(|k: int, e: (VClock, V)| (e.0@, e.1)),
                    ).contains(sview[j]),
                forall|k: int|
                    0 <= k < out@.len() ==> exists|j: int|
                        0 <= j < i && (#[trigger] out@[k].0@, out@[k].1) == #[trigger] sview[j],
                forall|k1: int, k2: int|
                    0 <= k1 < k2 < out@.len() ==> ((#[trigger] out@[k1]).0@, out@[k1].1) != (
                    (#[trigger] out@[k2]).0@,
                    out@[k2].1,
                    ),
            decreases n1 - i,
        {
            let dom = self.scan_dominates(i, other);
            proof {
                assert(self@[i as int] == (self.vals@[i as int].0@, self.vals@[i as int].1));
            }
            if !dom {
                let ghost prev = out@.map(|k: int, e: (VClock, V)| (e.0@, e.1));
                let ghost prevraw = out@;
                let e0 = self.vals[i].0.duplicate();
                let e1 = self.vals[i].1.dup();
                out.push((e0, e1));
                proof {
                    assert(out@.map(|k: int, e: (VClock, V)| (e.0@, e.1)) =~= prev.push(
                        sview[i as int],
                    ));
                    lemma_seq_entries_push(prev, sview[i as int]);
                    assert(out@ == prevraw.push((e0, e1)));
                    let last = prevraw.len() as int;
                    assert((out@[last].0@, out@[last].1) == sview[i as int]);
                    assert forall|k1: int| 0 <= k1 < last implies ((#[trigger] out@[k1]).0@,
                    out@[k1].1) != (out@[last].0@, out@[last].1) by {
                        assert(out@[k1] == prevraw[k1]);
                        let jj = choose|jj: int|
                            0 <= jj < i && (prevraw[k1].0@, prevraw[k1].1) == #[trigger] sview[jj];
                        assert(sview[jj] == (self.vals@[jj].0@, self.vals@[jj].1));
                        assert(sview[i as int] == (self.vals@[i as int].0@,
                        self.vals@[i as int].1));
                        assert(sview[jj] != sview[i as int]);
                    }
                }
            }
            i += 1;
        }
        let mut j: usize = 0;
        while j < n2
            invariant
                self.wf(),
                other.wf(),
                sview == self@,
                oview == other@,
                u == seq_entries(sview).union(seq_entries(oview)),
                n1 == self.vals@.len(),
                n2 == other.vals@.len(),
                j <= n2,
                forall|k: int|
                    0 <= k < out@.len() ==> (#[trigger] out@[k].0).wf() && out@[k].0@ != Map::<
                        u64,
                        u64,
                    >::empty(),
                forall|k: int|
                    0 <= k < out@.len() ==> u.contains(
                        (#[trigger] out@[k].0@, out@[k].1),
                    ) && !dominated((out@[k].0@, out@[k].1), u),
                forall|k: int|
                    0 <= k < n1 && !dominated(#[trigger] sview[k], u) ==> seq_entries(
                        out@.map(|m: int, e: (VClock, V)| (e.0@, e.1)),
                    ).contains(sview[k]),
                forall|k: int|
                    0 <= k < j && !dominated(#[trigger] oview[k], u) ==> seq_entries(
                        out@.map(|m: int, e: (VClock, V)| (e.0@, e.1)),
                    ).contains(oview[k]),
                forall|k1: int, k2: int|
                    0 <= k1 < k2 < out@.len() ==> ((#[trigger] out@[k1]).0@, out@[k1].1) != (
                    (#[trigger] out@[k2]).0@,
                    out@[k2].1,
                    ),
            decreases n2 - j,
        {
            let dom = other.scan_dominates(j, self);
            proof {
                assert(other@[j as int] == (other.vals@[j as int].0@, other.vals@[j as int].1));
                assert(seq_entries(oview).contains(oview[j as int]));
                assert(u.contains(oview[j as int]));
                assert(other.entries().union(self.entries()) =~= u);
                assert(dom == dominated(oview[j as int], u));
            }
            if !dom {
                let dup = self.scan_pair_equal(&out, other, j);
                if !dup {
                    let ghost prev = out@.map(|k: int, e: (VClock, V)| (e.0@, e.1));
                    let ghost prevraw = out@;
                    let e0 = other.vals[j].0.duplicate();
                    let e1 = other.vals[j].1.dup();
                    out.push((e0, e1));
                    proof {
                        assert(out@.map(|k: int, e: (VClock, V)| (e.0@, e.1)) =~= prev.push(
                            oview[j as int],
                        ));
                        lemma_seq_entries_push(prev, oview[j as int]);
                        assert(out@ == prevraw.push((e0, e1)));
                        let last = prevraw.len() as int;
                        assert((out@[last].0@, out@[last].1) == oview[j as int]);
                        assert forall|k1: int| 0 <= k1 < last implies ((#[trigger] out@[k1]).0@,
                        out@[k1].1) != (out@[last].0@, out@[last].1) by {
                            assert(out@[k1] == prevraw[k1]);
                            assert(prev[k1] == (prevraw[k1].0@, prevraw[k1].1));
                            if (prevraw[k1].0@, prevraw[k1].1) == oview[j as int] {
                                assert(prev.contains(prev[k1]));
                                assert(seq_entries(prev).contains(oview[j as int]));
                                assert(false);
                            }
                        }
                    }
                }
            }
            j += 1;
        }
        self.vals = out;
        proof {
            let fview = self@;
            let fset = seq_entries(fview);
            assert forall|e: (Map<u64, u64>, V)| #[trigger] fset.contains(e) implies merge_set(
                seq_entries(sview),
                seq_entries(oview),
            ).contains(e) by {
                let k = choose|k: int| 0 <= k < fview.len() && fview[k] == e;
                assert(fview[k] == (out@[k].0@, out@[k].1));
            }
            assert forall|e: (Map<u64, u64>, V)| #[trigger] merge_set(
                seq_entries(sview),
                seq_entries(oview),
            ).contains(e) implies fset.contains(e) by {
                if seq_entries(sview).contains(e) {
                    let k = choose|k: int| 0 <= k < sview.len() && sview[k] == e;
                } else {
                    let k = choose|k: int| 0 <= k < oview.len() && oview[k] == e;
                }
            }
            assert(fset =~= merge_set(seq_entries(sview), seq_entries(oview)));
            assert(forall|i2: int, j2: int|
                0 <= i2 < j2 < self.vals@.len() ==> ((#[trigger] self.vals@[i2]).0@,
                self.vals@[i2].1) != ((#[trigger] self.vals@[j2]).0@, self.vals@[j2].1));
        }
    }

    /// Whether some entry of `self` or of `other` strictly dominates the
    /// clock of `self`'s entry at `i`.
    fn scan_dominates(&self, i: usize, other: &Self) -> (r: bool)
        requires
            self.wf(),
            other.wf(),
            i < self@.len(),
        ensures
            r == dominated(self@[i as int], self.entries().union(other.entries())),
    {
        let ghost e = self@[i as int];
        let ghost u = self.entries().union(other.entries());
        proof {
            assert(self@[i as int] == (self.vals@[i as int].0@, self.vals@[i as int].1));
        }
        let n1 = self.vals.len();
        let n2 = other.vals.len();
        let mut k: usize = 0;
        while k < n1
            invariant
                self.wf(),
                other.wf(),
                i < self@.len(),
                e == self@[i as int],
                e.0 == self.vals@[i as int].0@,
                u == self.entries().union(other.entries()),
                n1 == self.vals@.len(),
                n2 == other.vals@.len(),
                k <= n1,
                forall|m: int| 0 <= m < k ==> !c_lt(e.0, (#[trigger] self.vals@[m].0)@),
            decreases n1 - k,
        {
            if self.vals[i].0.lt(&self.vals[k].0) {
                proof {
                    assert(self@[k as int] == (self.vals@[k as int].0@, self.vals@[k as int].1));
                    assert(seq_entries(self@).contains(self@[k as int]));
                    assert(u.contains(self@[k as int]));
                }
                return true;
            }
            k += 1;
        }
        let mut k2: usize = 0;
        while k2 < n2
            invariant
                self.wf(),
                other.wf(),
                i < self@.len(),
                e == self@[i as int],
                e.0 == self.vals@[i as int].0@,
                u == self.entries().union(other.entries()),
                n1 == self.vals@.len(),
                n2 == other.vals@.len(),
                k2 <= n2,
                forall|m: int| 0 <= m < n1 ==> !c_lt(e.0, (#[trigger] self.vals@[m].0)@),
                forall|m: int| 0 <= m < k2 ==> !c_lt(e.0, (#[trigger] other.vals@[m].0)@),
            decreases n2 - k2,
        {
            if self.vals[i].0.lt(&other.vals[k2].0) {
                proof {
                    assert(other@[k2 as int] == (other.vals@[k2 as int].0@,
                    other.vals@[k2 as int].1));
                    assert(seq_entries(other@).contains(other@[k2 as int]));
                    assert(u.contains(other@[k2 as int]));
                }
                return true;
            }
            k2 += 1;
        }
        proof {
            if dominated(e, u) {
                let f = choose|f: (Map<u64, u64>, V)| #[trigger] u.contains(f) && c_lt(e.0, f.0);
                if seq_entries(self@).contains(f) {
                    let m = choose|m: int| 0 <= m < self@.len() && self@[m] == f;
                    assert(self@[m] == (self.vals@[m].0@, self.vals@[m].1));
                    assert(false);
                } else {
                    let m = choose|m: int| 0 <= m < other@.len() && other@[m] == f;
                    assert(other@[m] == (other.vals@[m].0@, other.vals@[m].1));
                    assert(false);
                }
            }
        }
        false
    }

    /// Whether `out` already holds an entry equal, as a `(clock, value)`
    /// pair, to `other`'s entry at `j`.
    fn scan_pair_equal(&self, out: &Vec<(VClock, V)>, other: &Self, j: usize) -> (r: bool)
        requires
            other.wf(),
            j < other@.len(),
            forall|k: int| 0 <= k < out@.len() ==> (#[trigger] out@[k].0).wf(),
        ensures
            r <==> seq_entries(out@.map(|k: int, e: (VClock, V)| (e.0@, e.1))).contains(
                other@[j as int],
            ),
    {
        let ghost oview = out@.map(|k: int, e: (VClock, V)| (e.0@, e.1));
        proof {
            assert(other@[j as int] == (other.vals@[j as int].0@, other.vals@[j as int].1));
        }
        let n = out.len();
        let mut k: usize = 0;
        while k < n
            invariant
                other.wf(),
                j < other@.len(),
                other@[j as int] == (other.vals@[j as int].0@, other.vals@[j as int].1),
                forall|m: int| 0 <= m < out@.len() ==> (#[trigger] out@[m].0).wf(),
                oview == out@.map(|m: int, e: (VClock, V)| (e.0@, e.1)),
                n == out@.len(),
                k <= n,
                forall|m: int|
                    0 <= m < k ==> !(c_eqv((#[trigger] out@[m]).0@, other.vals@[j as int].0@)
                        && out@[m].1 == other.vals@[j as int].1),
            decreases n - k,
        {
            let ceq = out[k].0.eq(&other.vals[j].0);
            if ceq && out[k].1.val_eq(&other.vals[j].1) {
                proof {
                    out@[k as int].0.lemma_wf_canon();
                    other.vals@[j as int].0.lemma_wf_canon();
                    lemma_canonical_eq(out@[k as int].0@, other.vals@[j as int].0@);
                    assert(oview[k as int] == (out@[k as int].0@, out@[k as int].1));
                    assert(oview[k as int] == other@[j as int]);
                    assert(oview.contains(oview[k as int]));
                }
                return true;
            }
            k += 1;
        }
        proof {
            if seq_entries(oview).contains(other@[j as int]) {
                assert(oview.contains(other@[j as int]));
                let m = choose|m: int| 0 <= m < oview.len() && oview[m] == other@[j as int];
                assert(oview[m] == (out@[m].0@, out@[m].1));
                assert(out@[m].0@ == other.vals@[j as int].0@);
                assert(c_eqv(out@[m].0@, other.vals@[j as int].0@));
                assert(false);
            }
        }
        false
    }

    /// Whether `x` is the truncation by `k` of some entry among the first
    /// `bound` of `s`.
    pub open spec fn trunc_witness(
        x: (VClock, V),
        s: Seq<(Map<u64, u64>, V)>,
        k: Map<u64, u64>,
        bound: int,
    ) -> bool {
        exists|j: int|
            0 <= j < bound && #[trigger] c_sub(s[j].0, k) != Map::<u64, u64>::empty() && (
            x.0@,
            x.1,
            ) == (c_sub(s[j].0, k), s[j].1)
    }

    proof fn lemma_trunc_witness_mono(
        x: (VClock, V),
        s: Seq<(Map<u64, u64>, V)>,
        k: Map<u64, u64>,
        b1: int,
        b2: int,
    )
        requires
            b1 <= b2,
            Self::trunc_witness(x, s, k, b1),
        ensures
            Self::trunc_witness(x, s, k, b2),
    {
        let j = choose|j: int|
            0 <= j < b1 && #[trigger] c_sub(s[j].0, k) != Map::<u64, u64>::empty() && (x.0@, x.1)
                == (c_sub(s[j].0, k), s[j].1);
        assert(0 <= j < b2 && c_sub(s[j].0, k) != Map::<u64, u64>::empty() && (x.0@, x.1) == (
            c_sub(s[j].0, k),
            s[j].1,
        ));
    }

    /// Whether `out` already holds the pair `(c, v)`.
    fn holds_pair(out: &Vec<(VClock, V)>, c: &VClock, v: &V) -> (r: bool)
        requires
            c.wf(),
            forall|m: int| 0 <= m < out@.len() ==> (#[trigger] out@[m].0).wf(),
        ensures
            r <==> seq_entries(out@.map(|m: int, e: (VClock, V)| (e.0@, e.1))).contains(
                (c@, *v),
            ),
    {
        let ghost oview = out@.map(|m: int, e: (VClock, V)| (e.0@, e.1));
        let n = out.len();
        let mut m: usize = 0;
        while m < n
            invariant
                c.wf(),
                forall|m2: int| 0 <= m2 < out@.len() ==> (#[trigger] out@[m2].0).wf(),
                oview == out@.map(|m2: int, e: (VClock, V)| (e.0@, e.1)),
                n == out@.len(),
                m <= n,
                forall|m2: int|
                    0 <= m2 < m ==> !(c_eqv((#[trigger] out@[m2]).0@, c@) && out@[m2].1 == *v),
            decreases n - m,
        {
            let ceq = out[m].0.eq(c);
            if ceq && out[m].1.val_eq(v) {
                proof {
                    out@[m as int].0.lemma_wf_canon();
                    c.lemma_wf_canon();
                    lemma_canonical_eq(out@[m as int].0@, c@);
                    assert(oview[m as int] == (out@[m as int].0@, out@[m as int].1));
                    assert(oview[m as int] == (c@, *v));
                    assert(oview.contains(oview[m as int]));
                }
                return true;
            }
            m += 1;
        }
        proof {
            if seq_entries(oview).contains((c@, *v)) {
                assert(oview.contains((c@, *v)));
                let m2 = choose|m2: int| 0 <= m2 < oview.len() && oview[m2] == (c@, *v);
                assert(oview[m2] == (out@[m2].0@, out@[m2].1));
                assert(c_eqv(out@[m2].0@, c@));
                assert(false);
            }
        }
        false
    }

    /// Causal truncation: subtract `clock` from every entry's clock and drop
    /// the entries whose clock becomes empty; a pair that two entries shrink
    /// to is kept once.
    pub fn truncate(&mut self, clock: &VClock)
        requires
            old(self).wf(),
        ensures
            final(self).wf(),
            final(self).entries() == trunc_set(old(self).entries(), clock@),
    {
        let ghost k = clock@;
        let ghost oldview = self@;
        let n = self.vals.len();
        let mut out: Vec<(VClock, V)> = Vec::new();
        let mut i: usize = 0;
        while i < n
            invariant
                self.wf(),
                oldview == self@,
                k == clock@,
                n == self.vals@.len(),
                i <= n,
                forall|m: int|
                    0 <= m < out@.len() ==> (#[trigger] out@[m].0).wf() && out@[m].0@ != Map::<
                        u64,
                        u64,
                    >::empty(),
                forall|m: int|
                    0 <= m < out@.len() ==> Self::trunc_witness(
                        #[trigger] out@[m],
                        oldview,
                        k,
                        i as int,
                    ),
                forall|j: int|
                    0 <= j < i && c_sub(#[trigger] oldview[j].0, k) != Map::<u64, u64>::empty()
                        ==> seq_entries(out@.map(|m: int, e: (VClock, V)| (e.0@, e.1))).contains(
                        (c_sub(oldview[j].0, k), oldview[j].1),
                    ),
                forall|m1: int, m2: int|
                    0 <= m1 < m2 < out@.len() ==> ((#[trigger] out@[m1]).0@, out@[m1].1) != (
                    (#[trigger] out@[m2]).0@,
                    out@[m2].1,
                    ),
            decreases n - i,
        {
            proof {
                assert(self@[i as int] == (self.vals@[i as int].0@, self.vals@[i as int].1));
            }
            let mut c2 = self.vals[i].0.duplicate();
            c2.subtract(clock);
            if !c2.is_empty() && !Self::holds_pair(&out, &c2, &self.vals[i].1) {
                let ghost prev = out@.map(|m: int, e: (VClock, V)| (e.0@, e.1));
                let ghost prevraw = out@;
                let v2 = self.vals[i].1.dup();
                out.push((c2, v2));
                proof {
                    assert(out@ == prevraw.push((c2, v2)));
                    assert(out@.map(|m: int, e: (VClock, V)| (e.0@, e.1)) =~= prev.push(
                        (c_sub(oldview[i as int].0, k), oldview[i as int].1),
                    ));
                    lemma_seq_entries_push(prev, (c_sub(oldview[i as int].0, k),
                    oldview[i as int].1));
                    assert forall|m: int| 0 <= m < out@.len() implies Self::trunc_witness(
                        #[trigger] out@[m],
                        oldview,
                        k,
                        i + 1,
                    ) by {
                        if m < prevraw.len() {
                            assert(out@[m] == prevraw[m]);
                            assert(Self::trunc_witness(prevraw[m], oldview, k, i as int));
                            Self::lemma_trunc_witness_mono(prevraw[m], oldview, k, i as int, i + 1);
                        } else {
                            assert(out@[m] == (c2, v2));
                            assert(c_sub(oldview[i as int].0, k) != Map::<u64, u64>::empty());
                            assert((out@[m].0@, out@[m].1) == (
                                c_sub(oldview[i as int].0, k),
                                oldview[i as int].1,
                            ));
                        }
                    }
                    let last = prevraw.len() as int;
                    assert forall|m1: int| 0 <= m1 < last implies ((#[trigger] out@[m1]).0@,
                    out@[m1].1) != (out@[last].0@, out@[last].1) by {
                        assert(out@[m1] == prevraw[m1]);
                        assert(prev[m1] == (prevraw[m1].0@, prevraw[m1].1));
                        if (prevraw[m1].0@, prevraw[m1].1) == (c2@, v2) {
                            assert(prev.contains(prev[m1]));
                            assert(seq_entries(prev).contains((c2@, v2)));
                            assert(false);
                        }
                    }
                }
            } else if !c2.is_empty() {
                // the shrunken pair is already retained
                proof {
                    assert(seq_entries(out@.map(|m: int, e: (VClock, V)| (e.0@, e.1))).contains(
                        (c_sub(oldview[i as int].0, k), oldview[i as int].1),
                    ));
                    assert forall|m: int| 0 <= m < out@.len() implies Self::trunc_witness(
                        #[trigger] out@[m],
                        oldview,
                        k,
                        i + 1,
                    ) by {
                        Self::lemma_trunc_witness_mono(out@[m], oldview, k, i as int, i + 1);
                    }
                }
            } else {
                proof {
                    assert forall|m: int| 0 <= m < out@.len() implies Self::trunc_witness(
                        #[trigger] out@[m],
                        oldview,
                        k,
                        i + 1,
                    ) by {
                        Self::lemma_trunc_witness_mono(out@[m], oldview, k, i as int, i + 1);
                    }
                }
            }
            i += 1;
        }
        self.vals = out;
        proof {
            let fset = seq_entries(self@);
            let target = trunc_set(seq_entries(oldview), k);
            assert forall|e2: (Map<u64, u64>, V)| #[trigger] fset.contains(e2) implies
                target.contains(e2) by {
                let m = choose|m: int| 0 <= m < self@.len() && self@[m] == e2;
                assert(self@[m] == (out@[m].0@, out@[m].1));
                assert(Self::trunc_witness(out@[m], oldview, k, n as int));
                let j = choose|j: int|
                    0 <= j < n && #[trigger] c_sub(oldview[j].0, k) != Map::<u64, u64>::empty() && (
                    out@[m].0@,
                    out@[m].1,
                ) == (c_sub(oldview[j].0, k), oldview[j].1);
                assert(seq_entries(oldview).contains(oldview[j]));
            }
            assert forall|e2: (Map<u64, u64>, V)| #[trigger] target.contains(e2) implies
                fset.contains(e2) by {
                let e = choose|e: (Map<u64, u64>, V)| #[trigger] seq_entries(oldview).contains(e)
                    && c_sub(e.0, k) != Map::<u64, u64>::empty() && e2 == (c_sub(e.0, k), e.1);
                let j = choose|j: int| 0 <= j < oldview.len() && oldview[j] == e;
            }
            assert(fset =~= target);
            assert(forall|m1: int, m2: int|
                0 <= m1 < m2 < self.vals@.len() ==> ((#[trigger] self.vals@[m1]).0@,
                self.vals@[m1].1) != ((#[trigger] self.vals@[m2]).0@, self.vals@[m2].1));
        }
    }

    /// The join of all entry clocks: the latest version witnessed from every
    /// actor that has written to this register.
    fn clock(&self) -> (r: VClock)
        requires
            self.wf(),
        ensures
            r.wf(),
            r@ == clocks_join(self@),
    {
        let mut acc = VClock::new();
        let n = self.vals.len();
        let mut i: usize = 0;
        proof {
            assert(self@.take(0) =~= Seq::<(Map<u64, u64>, V)>::empty());
        }
        while i < n
            invariant
                self.wf(),
                n == self.vals@.len(),
                i <= n,
                acc.wf(),
                acc@ == clocks_join(self@.take(i as int)),
            decreases n - i,
        {
            proof {
                assert(self@[i as int] == (self.vals@[i as int].0@, self.vals@[i as int].1));
            }
            acc.merge(&self.vals[i].0);
            proof {
                assert(self@.take(i + 1).drop_last() =~= self@.take(i as int));
                assert(self@.take(i + 1).last() == self@[i as int]);
            }
            i += 1;
        }
        proof {
            assert(self@.take(n as int) =~= self@);
        }
        acc
    }

    /// Read every retained concurrent value, in storage order, under the
    /// join of all entry clocks.
    pub fn read(&self) -> (r: ReadCtx<Vec<V>>)
        requires
            self.wf(),
        ensures
            r.val@.len() == self@.len(),
            forall|i: int| 0 <= i < self@.len() ==> r.val@[i] == self@[i].1,
            r.add_clock.wf(),
            r.rm_clock.wf(),
            r.add_clock@ == clocks_join(self@),
            r.rm_clock@ == clocks_join(self@),
    {
        let c1 = self.clock();
        let c2 = c1.duplicate();
        let n = self.vals.len();
        let mut vs: Vec<V> = Vec::new();
        let mut i: usize = 0;
        while i < n
            invariant
                self.wf(),
                n == self.vals@.len(),
                i <= n,
                vs@.len() == i,
                forall|j: int| 0 <= j < i ==> vs@[j] == self@[j].1,
            decreases n - i,
        {
            proof {
                assert(self@[i as int] == (self.vals@[i as int].0@, self.vals@[i as int].1));
            }
            vs.push(self.vals[i].1.dup());
            i += 1;
        }
        ReadCtx { add_clock: c1, rm_clock: c2, val: vs }
    }
}

impl<V: Val> Default for MVReg<V> {
    /// The empty register.
    fn default() -> (r: Self)
        ensures
            r.wf(),
            r@ == Seq::<(Map<u64, u64>, V)>::empty(),
    {
        MVReg::new()
    }
}

impl<V: Val> PartialEq for MVReg<V> {
    /// Register equality is semantic: each side's entries all occur on the
    /// other side, as `(clock, value)` pairs under clock equivalence.
    fn eq(&self, other: &Self) -> (r: bool) {
        let n1 = self.vals.len();
        let mut i: usize = 0;
        while i < n1
            invariant
                n1 == self.vals@.len(),
                i <= n1,
                forall|k: int|
                    0 <= k < i ==> sim_in(#[trigger] rview(self.vals@)[k], rview(other.vals@)),
            decreases n1 - i,
        {
            if !self.find_sim(other, i) {
                proof {
                    assert(!sim_in(rview(self.vals@)[i as int], rview(other.vals@)));
                }
                return false;
            }
            i += 1;
        }
        let n2 = other.vals.len();
        let mut j: usize = 0;
        while j < n2
            invariant
                n1 == self.vals@.len(),
                n2 == other.vals@.len(),
                j <= n2,
                forall|k: int|
                    0 <= k < n1 ==> sim_in(#[trigger] rview(self.vals@)[k], rview(other.vals@)),
                forall|k: int|
                    0 <= k < j ==> sim_in(#[trigger] rview(other.vals@)[k], rview(self.vals@)),
            decreases n2 - j,
        {
            if !other.find_sim(self, j) {
                proof {
                    assert(!sim_in(rview(other.vals@)[j as int], rview(self.vals@)));
                }
                return false;
            }
            j += 1;
        }
        true
    }
}

/// The view sequence of a raw entry vector.
pub open spec fn rview<V>(s: Seq<(VClock, V)>) -> Seq<(Map<u64, u64>, V)> {
    s.map(|i: int, e: (VClock, V)| (e.0@, e.1))
}

/// Entry similarity: equivalent clocks carrying the same value.
pub open spec fn entry_sim<V>(e: (Map<u64, u64>, V), f: (Map<u64, u64>, V)) -> bool {
    c_eqv(e.0, f.0) && e.1 == f.1
}

/// Whether an entry occurs, up to clock equivalence, in a sequence.
pub open spec fn sim_in<V>(e: (Map<u64, u64>, V), s: Seq<(Map<u64, u64>, V)>) -> bool {
    exists|k: int| 0 <= k < s.len() && entry_sim(e, #[trigger] s[k])
}

impl<V: Val> MVReg<V> {
    /// Whether entry `i` of `self` occurs, up to clock equivalence, among
    /// the entries of `other`.
    fn find_sim(&self, other: &Self, i: usize) -> (r: bool)
        requires
            i < self.vals@.len(),
        ensures
            r == sim_in(rview(self.vals@)[i as int], rview(other.vals@)),
    {
        let ghost e = rview(self.vals@)[i as int];
        proof {
            assert(e == (self.vals@[i as int].0@, self.vals@[i as int].1));
        }
        let n = other.vals.len();
        let mut k: usize = 0;
        while k < n
            invariant
                i < self.vals@.len(),
                e == rview(self.vals@)[i as int],
                e == (self.vals@[i as int].0@, self.vals@[i as int].1),
                n == other.vals@.len(),
                k <= n,
                forall|m: int| 0 <= m < k ==> !entry_sim(e, #[trigger] rview(other.vals@)[m]),
            decreases n - k,
        {
            let ceq = self.vals[i].0.eq(&other.vals[k].0);
            proof {
                assert(rview(other.vals@)[k as int] == (other.vals@[k as int].0@,
                other.vals@[k as int].1));
            }
            if ceq && self.vals[i].1.val_eq(&other.vals[k].1) {
                return true;
            }
            k += 1;
        }
        false
    }
}

impl<V> MVReg<V> {
    /// Mutual containment of the two entry collections, up to clock
    /// equivalence: what register equality means.
    pub closed spec fn sim_eq(self, other: Self) -> bool {
        (forall|k: int|
            0 <= k < rview(self.vals@).len() ==> sim_in(
                #[trigger] rview(self.vals@)[k],
                rview(other.vals@),
            )) && (forall|k: int|
            0 <= k < rview(other.vals@).len() ==> sim_in(
                #[trigger] rview(other.vals@)[k],
                rview(self.vals@),
            ))
    }
}

impl<V: Val> vstd::std_specs::cmp::PartialEqSpecImpl for MVReg<V> {
    open spec fn obeys_eq_spec() -> bool {
        true
    }

    open spec fn eq_spec(&self, other: &Self) -> bool {
        self.sim_eq(*other)
    }
}

/// On well-formed registers the equality that `==` computes is exactly
/// equality of the entry collections the laws speak of.
pub proof fn lemma_eq_is_entry_set_equality<V>(a: MVReg<V>, b: MVReg<V>)
    requires
        a.wf(),
        b.wf(),
    ensures
        a.sim_eq(b) <==> a.entries() == b.entries(),
{
    assert(a@ =~= rview(a.vals@));
    assert(b@ =~= rview(b.vals@));
    if a.sim_eq(b) {
        assert forall|e: (Map<u64, u64>, V)| #[trigger] a.entries().contains(e) implies
            b.entries().contains(e) by {
            let i = choose|i: int| 0 <= i < a@.len() && a@[i] == e;
            assert(sim_in(rview(a.vals@)[i], rview(b.vals@)));
            let j = choose|j: int|
                0 <= j < rview(b.vals@).len() && entry_sim(rview(a.vals@)[i], rview(b.vals@)[j]);
            assert(b@[j] == (b.vals@[j].0@, b.vals@[j].1));
            a.vals@[i].0.lemma_wf_canon();
            b.vals@[j].0.lemma_wf_canon();
            assert(a@[i] == (a.vals@[i].0@, a.vals@[i].1));
            lemma_canonical_eq(a.vals@[i].0@, b.vals@[j].0@);
            assert(b@.contains(b@[j]));
        }
        assert forall|e: (Map<u64, u64>, V)| #[trigger] b.entries().contains(e) implies
            a.entries().contains(e) by {
            let i = choose|i: int| 0 <= i < b@.len() && b@[i] == e;
            assert(sim_in(rview(b.vals@)[i], rview(a.vals@)));
            let j = choose|j: int|
                0 <= j < rview(a.vals@).len() && entry_sim(rview(b.vals@)[i], rview(a.vals@)[j]);
            assert(a@[j] == (a.vals@[j].0@, a.vals@[j].1));
            b.vals@[i].0.lemma_wf_canon();
            a.vals@[j].0.lemma_wf_canon();
            assert(b@[i] == (b.vals@[i].0@, b.vals@[i].1));
            lemma_canonical_eq(b.vals@[i].0@, a.vals@[j].0@);
            assert(a@.contains(a@[j]));
        }
        assert(a.entries() =~= b.entries());
    }
    if a.entries() == b.entries() {
        assert forall|k: int| 0 <= k < rview(a.vals@).len() implies sim_in(
            #[trigger] rview(a.vals@)[k],
            rview(b.vals@),
        ) by {
            assert(a@.contains(a@[k]));
            assert(a.entries().contains(a@[k]));
            assert(b.entries().contains(a@[k]));
            let j = choose|j: int| 0 <= j < b@.len() && b@[j] == a@[k];
            assert(entry_sim(rview(a.vals@)[k], rview(b.vals@)[j]));
        }
        assert forall|k: int| 0 <= k < rview(b.vals@).len() implies sim_in(
            #[trigger] rview(b.vals@)[k],
            rview(a.vals@),
        ) by {
            assert(b@.contains(b@[k]));
            assert(b.entries().contains(b@[k]));
            assert(a.entries().contains(b@[k]));
            let j = choose|j: int| 0 <= j < a@.len() && a@[j] == b@[k];
            assert(entry_sim(rview(b.vals@)[k], rview(a.vals@)[j]));
        }
    }
}

/// Every clock of every entry of the set is canonical.
pub open spec fn entries_canon<V>(s: Set<(Map<u64, u64>, V)>) -> bool {
    forall|e: (Map<u64, u64>, V)| #[trigger] s.contains(e) ==> canon(e.0)
}

/// No entry of the set strictly dominates another: the state is a proper
/// antichain, as every state reached by `apply` and `merge` alone is.
pub open spec fn compact<V>(s: Set<(Map<u64, u64>, V)>) -> bool {
    forall|e: (Map<u64, u64>, V)| #[trigger] s.contains(e) ==> !dominated(e, s)
}

proof fn lemma_c_le_trans(a: Map<u64, u64>, b: Map<u64, u64>, c: Map<u64, u64>)
    requires
        c_le(a, b),
        c_le(b, c),
    ensures
        c_le(a, c),
{
    assert forall|x: u64| #[trigger] cnt(a, x) <= cnt(c, x) by {
        assert(cnt(a, x) <= cnt(b, x));
        assert(cnt(b, x) <= cnt(c, x));
    }
}

proof fn lemma_c_le_antisym(a: Map<u64, u64>, b: Map<u64, u64>)
    requires
        canon(a),
        canon(b),
        c_le(a, b),
        c_le(b, a),
    ensures
        a == b,
{
    assert forall|x: u64| #[trigger] cnt(a, x) == cnt(b, x) by {
        assert(cnt(a, x) <= cnt(b, x));
        assert(cnt(b, x) <= cnt(a, x));
    }
    lemma_canonical_eq(a, b);
}

/// Delivering the same put twice leaves the state of the first delivery:
/// `apply` is idempotent.
pub proof fn lemma_put_idempotent<V>(s: Set<(Map<u64, u64>, V)>, c: Map<u64, u64>, v: V)
    ensures
        put_set(put_set(s, c, v), c, v) == put_set(s, c, v),
{
    if c == Map::<u64, u64>::empty() {
    } else {
        let f = put_kept(s, c);
        assert(c_le(c, c));
        if put_adds(s, c) {
            let s1 = f.insert((c, v));
            assert(put_kept(s1, c) =~= f);
            assert(put_adds(s1, c));
            assert(put_set(s1, c, v) =~= s1);
        } else {
            let s1 = f;
            assert(put_kept(s1, c) =~= f);
            let w = choose|e: (Map<u64, u64>, V)| #[trigger] put_kept(s, c).contains(e) && c_lt(
                c,
                e.0,
            );
            assert(put_kept(s1, c).contains(w));
            assert(!put_adds(s1, c));
            assert(put_set(s1, c, v) =~= f);
        }
    }
}

/// A put keeps entry clocks canonical.
pub proof fn lemma_put_preserves_canon<V>(s: Set<(Map<u64, u64>, V)>, c: Map<u64, u64>, v: V)
    requires
        entries_canon(s),
        canon(c),
    ensures
        entries_canon(put_set(s, c, v)),
{
    assert forall|e: (Map<u64, u64>, V)| #[trigger] put_set(s, c, v).contains(e) implies canon(
        e.0,
    ) by {
        if e != (c, v) {
            assert(s.contains(e));
        }
    }
}

proof fn lemma_put_ordered<V>(
    s: Set<(Map<u64, u64>, V)>,
    cl: Map<u64, u64>,
    vl: V,
    ch: Map<u64, u64>,
    vh: V,
)
    requires
        entries_canon(s),
        canon(cl),
        canon(ch),
        cl != Map::<u64, u64>::empty(),
        ch != Map::<u64, u64>::empty(),
        c_le(cl, ch),
        cl != ch,
    ensures
        put_set(put_set(s, cl, vl), ch, vh) == put_set(put_set(s, ch, vh), cl, vl),
{
    let kl = put_kept(s, cl);
    let kh = put_kept(s, ch);
    assert(c_le(cl, cl));
    assert(c_le(ch, ch));
    // apply low then high
    let s1 = put_set(s, cl, vl);
    assert forall|e: (Map<u64, u64>, V)| #[trigger] s1.contains(e) && e != (cl, vl) implies
        s.contains(e) && !c_le(e.0, cl) by {}
    assert(put_kept(s1, ch) =~= kh) by {
        assert forall|e: (Map<u64, u64>, V)| #[trigger] put_kept(s1, ch).contains(e) implies
            kh.contains(e) by {
            if e == (cl, vl) {
                assert(!c_le(cl, ch));
                assert(false);
            } else {
                assert(s.contains(e));
            }
        }
        assert forall|e: (Map<u64, u64>, V)| #[trigger] kh.contains(e) implies put_kept(
            s1,
            ch,
        ).contains(e) by {
            assert(s.contains(e) && !c_le(e.0, ch));
            if c_le(e.0, cl) {
                lemma_c_le_trans(e.0, cl, ch);
                assert(false);
            }
            assert(kl.contains(e));
            if put_adds(s, cl) {
                assert(s1.contains(e));
            } else {
                assert(s1.contains(e));
            }
        }
    }
    assert(put_adds(s1, ch) == put_adds(s, ch));
    let left = put_set(s1, ch, vh);
    // apply high then low
    let s2 = put_set(s, ch, vh);
    assert(put_kept(s2, cl) =~= s2) by {
        assert forall|e: (Map<u64, u64>, V)| #[trigger] s2.contains(e) implies !c_le(e.0, cl) by {
            if e == (ch, vh) {
                if c_le(ch, cl) {
                    lemma_c_le_antisym(cl, ch);
                    assert(false);
                }
            } else {
                assert(s.contains(e) && !c_le(e.0, ch));
                if c_le(e.0, cl) {
                    lemma_c_le_trans(e.0, cl, ch);
                    assert(false);
                }
            }
        }
    }
    assert(!put_adds(s2, cl)) by {
        if put_adds(s, ch) {
            assert(s2.contains((ch, vh)));
            assert(put_kept(s2, cl).contains((ch, vh)));
            assert(c_lt(cl, ch));
        } else {
            let w = choose|e: (Map<u64, u64>, V)| #[trigger] put_kept(s, ch).contains(e) && c_lt(
                ch,
                e.0,
            );
            assert(s2.contains(w));
            assert(put_kept(s2, cl).contains(w));
            assert(c_le(cl, w.0)) by {
                lemma_c_le_trans(cl, ch, w.0);
            }
            if cl == w.0 {
                assert(c_le(w.0, ch));
                assert(false);
            }
            assert(c_lt(cl, w.0));
        }
    }
    let right = put_set(s2, cl, vl);
    assert(right =~= s2);
    if put_adds(s, ch) {
        assert(left =~= kh.insert((ch, vh)));
        assert(right =~= kh.insert((ch, vh)));
    } else {
        assert(left =~= kh);
        assert(right =~= kh);
    }
}

proof fn lemma_put_concurrent<V>(
    s: Set<(Map<u64, u64>, V)>,
    c1: Map<u64, u64>,
    v1: V,
    c2: Map<u64, u64>,
    v2: V,
)
    requires
        entries_canon(s),
        canon(c1),
        canon(c2),
        c1 != Map::<u64, u64>::empty(),
        c2 != Map::<u64, u64>::empty(),
        !c_le(c1, c2),
        !c_le(c2, c1),
    ensures
        put_set(put_set(s, c1, v1), c2, v2) == put_set(put_set(s, c2, v2), c1, v1),
{
    let kboth = s.filter(
        |e: (Map<u64, u64>, V)| !c_le(e.0, c1) && !c_le(e.0, c2),
    );
    let a1 = !(exists|e: (Map<u64, u64>, V)| #[trigger] kboth.contains(e) && c_lt(c1, e.0));
    let a2 = !(exists|e: (Map<u64, u64>, V)| #[trigger] kboth.contains(e) && c_lt(c2, e.0));
    lemma_put_one_side(s, c1, v1, c2, v2);
    lemma_put_one_side(s, c2, v2, c1, v1);
    let t1 = if a1 {
        kboth.insert((c1, v1))
    } else {
        kboth
    };
    let t2 = if a2 {
        kboth.insert((c2, v2))
    } else {
        kboth
    };
    assert(s.filter(|e: (Map<u64, u64>, V)| !c_le(e.0, c2) && !c_le(e.0, c1)) =~= kboth);
    assert(put_set(put_set(s, c1, v1), c2, v2) =~= (if a2 {
        t1.insert((c2, v2))
    } else {
        t1
    }));
    assert(put_set(put_set(s, c2, v2), c1, v1) =~= (if a1 {
        t2.insert((c1, v1))
    } else {
        t2
    }));
    assert(put_set(put_set(s, c1, v1), c2, v2) =~= put_set(put_set(s, c2, v2), c1, v1));
}

proof fn lemma_put_one_side<V>(
    s: Set<(Map<u64, u64>, V)>,
    c1: Map<u64, u64>,
    v1: V,
    c2: Map<u64, u64>,
    v2: V,
)
    requires
        entries_canon(s),
        canon(c1),
        canon(c2),
        c1 != Map::<u64, u64>::empty(),
        c2 != Map::<u64, u64>::empty(),
        !c_le(c1, c2),
        !c_le(c2, c1),
    ensures
        ({
            let kboth = s.filter(|e: (Map<u64, u64>, V)| !c_le(e.0, c1) && !c_le(e.0, c2));
            let a1 = !(exists|e: (Map<u64, u64>, V)| #[trigger] kboth.contains(e) && c_lt(
                c1,
                e.0,
            ));
            let a2 = !(exists|e: (Map<u64, u64>, V)| #[trigger] kboth.contains(e) && c_lt(
                c2,
                e.0,
            ));
            put_set(put_set(s, c1, v1), c2, v2) == (if a2 {
                (if a1 {
                    kboth.insert((c1, v1))
                } else {
                    kboth
                }).insert((c2, v2))
            } else {
                (if a1 {
                    kboth.insert((c1, v1))
                } else {
                    kboth
                })
            })
        }),
{
    let kboth = s.filter(|e: (Map<u64, u64>, V)| !c_le(e.0, c1) && !c_le(e.0, c2));
    let a1g = !(exists|e: (Map<u64, u64>, V)| #[trigger] kboth.contains(e) && c_lt(c1, e.0));
    let a2g = !(exists|e: (Map<u64, u64>, V)| #[trigger] kboth.contains(e) && c_lt(c2, e.0));
    let k1 = put_kept(s, c1);
    assert(c_le(c1, c1));
    assert(c_le(c2, c2));
    // the first put adds exactly when no surviving-from-both entry is later
    assert(put_adds(s, c1) == a1g) by {
        if put_adds(s, c1) {
            if !a1g {
                let w = choose|e: (Map<u64, u64>, V)| #[trigger] kboth.contains(e) && c_lt(
                    c1,
                    e.0,
                );
                assert(k1.contains(w));
                assert(false);
            }
        } else {
            let w = choose|e: (Map<u64, u64>, V)| #[trigger] put_kept(s, c1).contains(e) && c_lt(
                c1,
                e.0,
            );
            if c_le(w.0, c2) {
                lemma_c_le_trans(c1, w.0, c2);
                assert(false);
            }
            assert(kboth.contains(w));
            assert(!a1g);
        }
    }
    let s1 = put_set(s, c1, v1);
    let k12 = put_kept(s1, c2);
    assert(k12 =~= (if a1g {
        kboth.insert((c1, v1))
    } else {
        kboth
    })) by {
        assert forall|e: (Map<u64, u64>, V)| #[trigger] k12.contains(e) implies (if a1g {
            kboth.insert((c1, v1))
        } else {
            kboth
        }).contains(e) by {
            if e != (c1, v1) {
                assert(s.contains(e) && !c_le(e.0, c1) && !c_le(e.0, c2));
                assert(kboth.contains(e));
            }
        }
        let target = if a1g {
            kboth.insert((c1, v1))
        } else {
            kboth
        };
        assert forall|e: (Map<u64, u64>, V)| #[trigger] target.contains(e) implies k12.contains(
            e,
        ) by {
            if e == (c1, v1) && a1g {
                assert(s1.contains(e));
                assert(!c_le(c1, c2));
            } else {
                assert(kboth.contains(e));
                assert(k1.contains(e));
                assert(s1.contains(e));
            }
        }
    }
    assert(put_adds(s1, c2) == a2g) by {
        if a2g {
            if !put_adds(s1, c2) {
                let w = choose|e: (Map<u64, u64>, V)| #[trigger] put_kept(s1, c2).contains(e)
                    && c_lt(c2, e.0);
                if w == (c1, v1) {
                    assert(c_le(c2, c1));
                    assert(false);
                }
                assert(kboth.contains(w));
                assert(false);
            }
        } else {
            let w = choose|e: (Map<u64, u64>, V)| #[trigger] kboth.contains(e) && c_lt(c2, e.0);
            assert(k12.contains(w));
        }
    }
    assert(put_set(s1, c2, v2) =~= (if a2g {
        k12.insert((c2, v2))
    } else {
        k12
    }));
}

/// Delivering two puts commutes whenever they do not carry the same clock
/// with different values: `apply` is commutative over compatible ops.
pub proof fn lemma_put_commutative<V>(
    s: Set<(Map<u64, u64>, V)>,
    c1: Map<u64, u64>,
    v1: V,
    c2: Map<u64, u64>,
    v2: V,
)
    requires
        entries_canon(s),
        canon(c1),
        canon(c2),
        c1 == c2 ==> v1 == v2,
    ensures
        put_set(put_set(s, c1, v1), c2, v2) == put_set(put_set(s, c2, v2), c1, v1),
{
    if c1 == Map::<u64, u64>::empty() || c2 == Map::<u64, u64>::empty() {
    } else if c1 == c2 {
        lemma_put_idempotent(s, c1, v1);
    } else if c_le(c1, c2) {
        lemma_put_ordered(s, c1, v1, c2, v2);
    } else if c_le(c2, c1) {
        lemma_put_ordered(s, c2, v2, c1, v1);
    } else {
        lemma_put_concurrent(s, c1, v1, c2, v2);
    }
}

/// Three compatible puts may be delivered in any order: with idempotence and
/// commutativity, any grouping of applies yields the same state.
pub proof fn lemma_put_order_free<V>(
    s: Set<(Map<u64, u64>, V)>,
    c1: Map<u64, u64>,
    v1: V,
    c2: Map<u64, u64>,
    v2: V,
    c3: Map<u64, u64>,
    v3: V,
)
    requires
        entries_canon(s),
        canon(c1),
        canon(c2),
        canon(c3),
        c1 == c2 ==> v1 == v2,
        c1 == c3 ==> v1 == v3,
        c2 == c3 ==> v2 == v3,
    ensures
        put_set(put_set(put_set(s, c1, v1), c2, v2), c3, v3) == put_set(
            put_set(put_set(s, c2, v2), c1, v1),
            c3,
            v3,
        ),
        put_set(put_set(put_set(s, c1, v1), c2, v2), c3, v3) == put_set(
            put_set(put_set(s, c1, v1), c3, v3),
            c2,
            v2,
        ),
        put_set(put_set(put_set(s, c1, v1), c2, v2), c3, v3) == put_set(
            put_set(put_set(s, c3, v3), c2, v2),
            c1,
            v1,
        ),
{
    lemma_put_commutative(s, c1, v1, c2, v2);
    lemma_put_preserves_canon(s, c1, v1);
    lemma_put_commutative(put_set(s, c1, v1), c2, v2, c3, v3);
    lemma_put_commutative(s, c1, v1, c3, v3);
    lemma_put_preserves_canon(s, c3, v3);
    lemma_put_commutative(put_set(s, c3, v3), c1, v1, c2, v2);
}

/// A put leaves no entry strictly dominated: `apply` preserves compactness.
pub proof fn lemma_put_preserves_compact<V>(s: Set<(Map<u64, u64>, V)>, c: Map<u64, u64>, v: V)
    requires
        compact(s),
    ensures
        compact(put_set(s, c, v)),
{
    if c == Map::<u64, u64>::empty() {
    } else {
        let out = put_set(s, c, v);
        assert forall|e: (Map<u64, u64>, V)| #[trigger] out.contains(e) implies !dominated(
            e,
            out,
        ) by {
            if dominated(e, out) {
                let f = choose|f: (Map<u64, u64>, V)| #[trigger] out.contains(f) && c_lt(e.0, f.0);
                if e == (c, v) && put_adds(s, c) {
                    assert(f != e);
                    assert(put_kept(s, c).contains(f));
                    assert(false);
                } else {
                    assert(put_kept(s, c).contains(e));
                    if f == (c, v) && put_adds(s, c) {
                        assert(c_le(e.0, c));
                        assert(false);
                    } else {
                        assert(put_kept(s, c).contains(f));
                        assert(s.contains(f));
                        assert(dominated(e, s));
                        assert(false);
                    }
                }
            }
        }
    }
}

/// A merge leaves no entry strictly dominated: `merge` preserves
/// compactness.
pub proof fn lemma_merge_preserves_compact<V>(
    a: Set<(Map<u64, u64>, V)>,
    b: Set<(Map<u64, u64>, V)>,
)
    ensures
        compact(merge_set(a, b)),
{
    let u = a.union(b);
    let out = merge_set(a, b);
    assert forall|e: (Map<u64, u64>, V)| #[trigger] out.contains(e) implies !dominated(
        e,
        out,
    ) by {
        if dominated(e, out) {
            let f = choose|f: (Map<u64, u64>, V)| #[trigger] out.contains(f) && c_lt(e.0, f.0);
            assert(u.contains(f));
            assert(dominated(e, u));
            assert(false);
        }
    }
}

/// Merging a state with itself changes nothing: `merge` is idempotent on
/// compact states.
pub proof fn lemma_merge_idempotent<V>(s: Set<(Map<u64, u64>, V)>)
    requires
        compact(s),
    ensures
        merge_set(s, s) == s,
{
    assert(s.union(s) =~= s);
    assert forall|e: (Map<u64, u64>, V)| #[trigger] s.contains(e) implies merge_set(
        s,
        s,
    ).contains(e) by {
        assert(!dominated(e, s));
    }
    assert(merge_set(s, s) =~= s);
}

/// `merge` is commutative.
pub proof fn lemma_merge_commutative<V>(a: Set<(Map<u64, u64>, V)>, b: Set<(Map<u64, u64>, V)>)
    ensures
        merge_set(a, b) == merge_set(b, a),
{
    assert(a.union(b) =~= b.union(a));
    assert(merge_set(a, b) =~= merge_set(b, a));
}

/// In a finite set, any entry is reachable from above by an undominated one.
proof fn lemma_exists_maximal<V>(s: Set<(Map<u64, u64>, V)>, e: (Map<u64, u64>, V))
    requires
        entries_canon(s),
        s.finite(),
        s.contains(e),
    ensures
        exists|f: (Map<u64, u64>, V)|
            #[trigger] s.contains(f) && (e == f || c_lt(e.0, f.0)) && !dominated(f, s),
    decreases s.len(),
{
    if !dominated(e, s) {
        assert(s.contains(e) && (e == e || c_lt(e.0, e.0)) && !dominated(e, s));
    } else {
        let g = choose|g: (Map<u64, u64>, V)| #[trigger] s.contains(g) && c_lt(e.0, g.0);
        let s2 = s.remove(e);
        assert(s2.contains(g));
        assert(s2.len() < s.len());
        lemma_exists_maximal(s2, g);
        let f = choose|f: (Map<u64, u64>, V)|
            #[trigger] s2.contains(f) && (g == f || c_lt(g.0, f.0)) && !dominated(f, s2);
        assert(c_lt(e.0, f.0)) by {
            if g != f {
                lemma_c_le_trans(e.0, g.0, f.0);
                if e.0 == f.0 {
                    assert(c_le(g.0, f.0));
                    assert(c_le(f.0, g.0)) by {
                        assert(c_le(e.0, g.0));
                    }
                    lemma_c_le_antisym(g.0, f.0);
                    assert(false);
                }
            }
        }
        assert(!dominated(f, s)) by {
            if dominated(f, s) {
                let h = choose|h: (Map<u64, u64>, V)| #[trigger] s.contains(h) && c_lt(f.0, h.0);
                if h == e {
                    lemma_c_le_trans(e.0, f.0, e.0);
                    lemma_c_le_trans(f.0, e.0, f.0);
                    lemma_c_le_antisym(e.0, f.0);
                    assert(false);
                } else {
                    assert(s2.contains(h));
                    assert(dominated(f, s2));
                    assert(false);
                }
            }
        }
        assert(s.contains(f) && (e == f || c_lt(e.0, f.0)) && !dominated(f, s));
    }
}

/// `merge` is associative on finite canonical states.
pub proof fn lemma_merge_associative<V>(
    a: Set<(Map<u64, u64>, V)>,
    b: Set<(Map<u64, u64>, V)>,
    c: Set<(Map<u64, u64>, V)>,
)
    requires
        entries_canon(a),
        entries_canon(b),
        entries_canon(c),
        a.finite(),
        b.finite(),
        c.finite(),
    ensures
        merge_set(merge_set(a, b), c) == merge_set(a, merge_set(b, c)),
{
    let u = a.union(b).union(c);
    assert(entries_canon(u)) by {
        assert forall|e: (Map<u64, u64>, V)| #[trigger] u.contains(e) implies canon(e.0) by {}
    }
    assert(u.finite());
    lemma_merge_flatten(a, b, c);
    lemma_merge_flatten_right(a, b, c);
    assert(merge_set(merge_set(a, b), c) =~= merge_set(a, merge_set(b, c)));
}

proof fn lemma_merge_flatten<V>(
    a: Set<(Map<u64, u64>, V)>,
    b: Set<(Map<u64, u64>, V)>,
    c: Set<(Map<u64, u64>, V)>,
)
    requires
        entries_canon(a),
        entries_canon(b),
        entries_canon(c),
        a.finite(),
        b.finite(),
        c.finite(),
    ensures
        merge_set(merge_set(a, b), c) == a.union(b).union(c).filter(
            |e: (Map<u64, u64>, V)| !dominated(e, a.union(b).union(c)),
        ),
{
    let ab = a.union(b);
    let u = ab.union(c);
    let flat = u.filter(|e: (Map<u64, u64>, V)| !dominated(e, u));
    let m1 = merge_set(a, b);
    let lhs = merge_set(m1, c);
    assert forall|e: (Map<u64, u64>, V)| #[trigger] lhs.contains(e) implies flat.contains(e) by {
        assert(m1.union(c).contains(e));
        assert(u.contains(e));
        if dominated(e, u) {
            let g = choose|g: (Map<u64, u64>, V)| #[trigger] u.contains(g) && c_lt(e.0, g.0);
            assert(entries_canon(u)) by {
                assert forall|x: (Map<u64, u64>, V)| #[trigger] u.contains(x) implies canon(
                    x.0,
                ) by {}
            }
            lemma_exists_maximal(u, g);
            let f = choose|f: (Map<u64, u64>, V)|
                #[trigger] u.contains(f) && (g == f || c_lt(g.0, f.0)) && !dominated(f, u);
            assert(c_lt(e.0, f.0)) by {
                if g != f {
                    lemma_c_le_trans(e.0, g.0, f.0);
                    if e.0 == f.0 {
                        lemma_c_le_trans(g.0, f.0, g.0);
                        lemma_c_le_antisym(e.0, g.0);
                        assert(false);
                    }
                }
            }
            if c.contains(f) {
                assert(m1.union(c).contains(f));
                assert(dominated(e, m1.union(c)));
                assert(false);
            } else {
                assert(ab.contains(f));
                assert(!dominated(f, ab)) by {
                    if dominated(f, ab) {
                        let h = choose|h: (Map<u64, u64>, V)| #[trigger] ab.contains(h) && c_lt(
                            f.0,
                            h.0,
                        );
                        assert(u.contains(h));
                        assert(dominated(f, u));
                        assert(false);
                    }
                }
                assert(m1.contains(f));
                assert(m1.union(c).contains(f));
                assert(dominated(e, m1.union(c)));
                assert(false);
            }
        }
    }
    assert forall|e: (Map<u64, u64>, V)| #[trigger] flat.contains(e) implies lhs.contains(e) by {
        assert(u.contains(e));
        assert(!dominated(e, u));
        if ab.contains(e) {
            assert(!dominated(e, ab)) by {
                if dominated(e, ab) {
                    let h = choose|h: (Map<u64, u64>, V)| #[trigger] ab.contains(h) && c_lt(
                        e.0,
                        h.0,
                    );
                    assert(u.contains(h));
                    assert(false);
                }
            }
            assert(m1.contains(e));
        }
        assert(m1.union(c).contains(e));
        assert(!dominated(e, m1.union(c))) by {
            if dominated(e, m1.union(c)) {
                let h = choose|h: (Map<u64, u64>, V)| #[trigger] (m1.union(c)).contains(h) && c_lt(
                    e.0,
                    h.0,
                );
                assert(u.contains(h)) by {
                    if m1.contains(h) {
                        assert(ab.contains(h));
                    }
                }
                assert(false);
            }
        }
    }
    assert(lhs =~= flat);
}

proof fn lemma_merge_flatten_right<V>(
    a: Set<(Map<u64, u64>, V)>,
    b: Set<(Map<u64, u64>, V)>,
    c: Set<(Map<u64, u64>, V)>,
)
    requires
        entries_canon(a),
        entries_canon(b),
        entries_canon(c),
        a.finite(),
        b.finite(),
        c.finite(),
    ensures
        merge_set(a, merge_set(b, c)) == a.union(b).union(c).filter(
            |e: (Map<u64, u64>, V)| !dominated(e, a.union(b).union(c)),
        ),
{
    lemma_merge_commutative(a, merge_set(b, c));
    lemma_merge_commutative(b, c);
    lemma_merge_flatten(c, b, a);
    assert(c.union(b) =~= b.union(c));
    assert(c.union(b).union(a) =~= a.union(b).union(c));
    assert(merge_set(merge_set(c, b), a) == merge_set(merge_set(b, c), a));
    assert(c.union(b).union(a).filter(
        |e: (Map<u64, u64>, V)| !dominated(e, c.union(b).union(a)),
    ) =~= a.union(b).union(c).filter(
        |e: (Map<u64, u64>, V)| !dominated(e, a.union(b).union(c)),
    ));
}

/// Delivering one put equals merging with the singleton state that the put
/// creates on an empty register: ops and merges converge to the same state.
pub proof fn lemma_put_merge_equivalent<V>(s: Set<(Map<u64, u64>, V)>, c: Map<u64, u64>, v: V)
    requires
        entries_canon(s),
        canon(c),
        compact(s),
        forall|e: (Map<u64, u64>, V)| #[trigger] s.contains(e) && e.0 == c ==> e.1 == v,
    ensures
        put_set(s, c, v) == merge_set(s, put_set(Set::<(Map<u64, u64>, V)>::empty(), c, v)),
{
    let none = Set::<(Map<u64, u64>, V)>::empty();
    if c == Map::<u64, u64>::empty() {
        assert(put_set(none, c, v) =~= none);
        assert(s.union(none) =~= s);
        assert forall|e: (Map<u64, u64>, V)| #[trigger] s.contains(e) implies merge_set(
            s,
            none,
        ).contains(e) by {
            assert(!dominated(e, s));
        }
        assert(merge_set(s, none) =~= s);
    } else {
        assert(put_kept(none, c) =~= none);
        assert(put_adds(none, c));
        let single = none.insert((c, v));
        assert(put_set(none, c, v) =~= single);
        let u = s.union(single);
        let m = merge_set(s, single);
        assert(c_le(c, c));
        assert forall|e: (Map<u64, u64>, V)| #[trigger] put_set(s, c, v).contains(e) implies
            m.contains(e) by {
            if e == (c, v) && put_adds(s, c) {
                assert(u.contains(e));
                assert(!dominated((c, v), u)) by {
                    if dominated((c, v), u) {
                        let h = choose|h: (Map<u64, u64>, V)| #[trigger] u.contains(h) && c_lt(
                            c,
                            h.0,
                        );
                        assert(h != (c, v));
                        assert(s.contains(h));
                        if c_le(h.0, c) {
                            lemma_c_le_antisym(h.0, c);
                            assert(false);
                        }
                        assert(!c_le(h.0, c));
                        assert(put_kept(s, c).contains(h));
                        assert(false);
                    }
                }
            } else {
                assert(put_kept(s, c).contains(e));
                assert(s.contains(e) && !c_le(e.0, c));
                assert(u.contains(e));
                assert(!dominated(e, u)) by {
                    if dominated(e, u) {
                        let h = choose|h: (Map<u64, u64>, V)| #[trigger] u.contains(h) && c_lt(
                            e.0,
                            h.0,
                        );
                        if h == (c, v) {
                            assert(c_le(e.0, c));
                            assert(false);
                        } else {
                            assert(s.contains(h));
                            assert(dominated(e, s));
                            assert(false);
                        }
                    }
                }
            }
        }
        assert forall|e: (Map<u64, u64>, V)| #[trigger] m.contains(e) implies put_set(
            s,
            c,
            v,
        ).contains(e) by {
            assert(!dominated(e, u));
            if e == (c, v) {
                assert(put_adds(s, c)) by {
                    if !put_adds(s, c) {
                        let w = choose|w: (Map<u64, u64>, V)| #[trigger] put_kept(s, c).contains(
                            w,
                        ) && c_lt(c, w.0);
                        assert(u.contains(w));
                        assert(dominated((c, v), u));
                        assert(false);
                    }
                }
            } else {
                assert(s.contains(e));
                assert(!c_le(e.0, c)) by {
                    if c_le(e.0, c) {
                        if e.0 == c {
                            assert(e.1 == v);
                            assert(false);
                        }
                        assert(u.contains((c, v)));
                        assert(c_lt(e.0, c));
                        assert(dominated(e, u));
                        assert(false);
                    }
                }
                assert(put_kept(s, c).contains(e));
            }
        }
        assert(put_set(s, c, v) =~= m);
    }
}

/// The state after delivering a whole history of puts, in order.
pub open spec fn apply_all<V>(s: Set<(Map<u64, u64>, V)>, ops: Seq<(Map<u64, u64>, V)>) -> Set<
    (Map<u64, u64>, V),
>
    decreases ops.len(),
{
    if ops.len() == 0 {
        s
    } else {
        put_set(apply_all(s, ops.drop_last()), ops.last().0, ops.last().1)
    }
}

/// Every clock in the history is canonical.
pub open spec fn ops_canon<V>(ops: Seq<(Map<u64, u64>, V)>) -> bool {
    forall|i: int| 0 <= i < ops.len() ==> canon((#[trigger] ops[i]).0)
}

/// Two ops are compatible when they cannot carry the same clock with
/// different values.
pub open spec fn compat_ops<V>(a: (Map<u64, u64>, V), b: (Map<u64, u64>, V)) -> bool {
    a.0 == b.0 ==> a.1 == b.1
}

/// No op of one history clashes with an op of the other.
pub open spec fn compat_histories<V>(
    h1: Seq<(Map<u64, u64>, V)>,
    h2: Seq<(Map<u64, u64>, V)>,
) -> bool {
    forall|i: int, j: int|
        0 <= i < h1.len() && 0 <= j < h2.len() ==> compat_ops(
            #[trigger] h1[i],
            #[trigger] h2[j],
        )
}

/// A history of canonical puts keeps the entry clocks canonical.
pub proof fn lemma_apply_all_canon<V>(s: Set<(Map<u64, u64>, V)>, ops: Seq<(Map<u64, u64>, V)>)
    requires
        entries_canon(s),
        ops_canon(ops),
    ensures
        entries_canon(apply_all(s, ops)),
    decreases ops.len(),
{
    if ops.len() == 0 {
    } else {
        assert(ops_canon(ops.drop_last())) by {
            assert(forall|i: int| 0 <= i < ops.len() - 1 ==> ops.drop_last()[i] == ops[i]);
        }
        lemma_apply_all_canon(s, ops.drop_last());
        lemma_put_preserves_canon(apply_all(s, ops.drop_last()), ops.last().0, ops.last().1);
    }
}

proof fn lemma_put_past_history<V>(
    s: Set<(Map<u64, u64>, V)>,
    c: Map<u64, u64>,
    v: V,
    h: Seq<(Map<u64, u64>, V)>,
)
    requires
        entries_canon(s),
        canon(c),
        ops_canon(h),
        forall|i: int| 0 <= i < h.len() ==> compat_ops((c, v), #[trigger] h[i]),
    ensures
        apply_all(put_set(s, c, v), h) == put_set(apply_all(s, h), c, v),
    decreases h.len(),
{
    if h.len() == 0 {
    } else {
        let hd = h.drop_last();
        let x = h.last();
        assert(ops_canon(hd)) by {
            assert(forall|i: int| 0 <= i < h.len() - 1 ==> hd[i] == h[i]);
        }
        assert(forall|i: int| 0 <= i < hd.len() ==> compat_ops((c, v), #[trigger] hd[i])) by {
            assert(forall|i: int| 0 <= i < h.len() - 1 ==> hd[i] == h[i]);
        }
        lemma_put_past_history(s, c, v, hd);
        lemma_apply_all_canon(s, hd);
        assert(compat_ops((c, v), x));
        lemma_put_commutative(apply_all(s, hd), c, v, x.0, x.1);
    }
}

/// Op commutativity over whole histories: delivering history `h2` on top of
/// `h1` reaches the same state as delivering `h1` on top of `h2`, whenever
/// no op of one clashes with an op of the other.
pub proof fn lemma_histories_commute<V>(
    s: Set<(Map<u64, u64>, V)>,
    h1: Seq<(Map<u64, u64>, V)>,
    h2: Seq<(Map<u64, u64>, V)>,
)
    requires
        entries_canon(s),
        ops_canon(h1),
        ops_canon(h2),
        compat_histories(h1, h2),
    ensures
        apply_all(apply_all(s, h1), h2) == apply_all(apply_all(s, h2), h1),
    decreases h2.len(),
{
    if h2.len() == 0 {
    } else {
        let hd = h2.drop_last();
        let x = h2.last();
        assert(ops_canon(hd)) by {
            assert(forall|i: int| 0 <= i < h2.len() - 1 ==> hd[i] == h2[i]);
        }
        assert(compat_histories(h1, hd)) by {
            assert(forall|i: int| 0 <= i < h2.len() - 1 ==> hd[i] == h2[i]);
        }
        lemma_histories_commute(s, h1, hd);
        lemma_apply_all_canon(s, hd);
        assert(forall|i: int| 0 <= i < h1.len() ==> compat_ops((x.0, x.1), #[trigger] h1[i])) by {
            assert(h2[h2.len() - 1] == x);
            assert forall|i: int| 0 <= i < h1.len() implies compat_ops(
                (x.0, x.1),
                #[trigger] h1[i],
            ) by {
                assert(compat_ops(h1[i], h2[h2.len() - 1]));
            }
        }
        lemma_put_past_history(apply_all(s, hd), x.0, x.1, h1);
        assert(apply_all(apply_all(s, h1), h2) == put_set(
            apply_all(apply_all(s, h1), hd),
            x.0,
            x.1,
        ));
        assert(apply_all(apply_all(s, h2), h1) == apply_all(
            put_set(apply_all(s, hd), x.0, x.1),
            h1,
        )) by {
            assert(apply_all(s, h2) == put_set(apply_all(s, hd), x.0, x.1));
        }
    }
}

/// The state a history of per-op singleton states merges to.
pub open spec fn merge_all<V>(ops: Seq<(Map<u64, u64>, V)>) -> Set<(Map<u64, u64>, V)>
    decreases ops.len(),
{
    if ops.len() == 0 {
        Set::empty()
    } else {
        merge_set(
            merge_all(ops.drop_last()),
            put_set(Set::<(Map<u64, u64>, V)>::empty(), ops.last().0, ops.last().1),
        )
    }
}

/// Every entry of a state built from the empty register carries the clock
/// and value of one of its ops.
proof fn lemma_apply_all_entries_from_ops<V>(ops: Seq<(Map<u64, u64>, V)>)
    ensures
        forall|e: (Map<u64, u64>, V)| #[trigger]
            apply_all(Set::<(Map<u64, u64>, V)>::empty(), ops).contains(e) ==> exists|i: int|
                0 <= i < ops.len() && e == #[trigger] ops[i],
    decreases ops.len(),
{
    if ops.len() == 0 {
    } else {
        let hd = ops.drop_last();
        lemma_apply_all_entries_from_ops(hd);
        assert forall|e: (Map<u64, u64>, V)| #[trigger]
            apply_all(Set::<(Map<u64, u64>, V)>::empty(), ops).contains(e) implies exists|i: int|
            0 <= i < ops.len() && e == #[trigger] ops[i] by {
            if e == (ops.last().0, ops.last().1) {
                assert(ops[ops.len() - 1] == e);
            } else {
                if ops.last().0 == Map::<u64, u64>::empty() {
                    assert(apply_all(Set::<(Map<u64, u64>, V)>::empty(), hd).contains(e));
                } else {
                    assert(put_kept(
                        apply_all(Set::<(Map<u64, u64>, V)>::empty(), hd),
                        ops.last().0,
                    ).contains(e));
                    assert(apply_all(Set::<(Map<u64, u64>, V)>::empty(), hd).contains(e));
                }
                let i = choose|i: int| 0 <= i < hd.len() && e == #[trigger] hd[i];
                assert(ops[i] == e);
            }
        }
    }
}

proof fn lemma_apply_all_compact<V>(ops: Seq<(Map<u64, u64>, V)>)
    ensures
        compact(apply_all(Set::<(Map<u64, u64>, V)>::empty(), ops)),
    decreases ops.len(),
{
    if ops.len() == 0 {
    } else {
        lemma_apply_all_compact(ops.drop_last());
        lemma_put_preserves_compact(
            apply_all(Set::<(Map<u64, u64>, V)>::empty(), ops.drop_last()),
            ops.last().0,
            ops.last().1,
        );
    }
}

/// Op/merge equivalence: applying a compatible history to the empty register
/// reaches the same state as merging the per-op singleton states, in order.
pub proof fn lemma_apply_all_equals_merge_all<V>(ops: Seq<(Map<u64, u64>, V)>)
    requires
        ops_canon(ops),
        compat_histories(ops, ops),
    ensures
        apply_all(Set::<(Map<u64, u64>, V)>::empty(), ops) == merge_all(ops),
    decreases ops.len(),
{
    let none = Set::<(Map<u64, u64>, V)>::empty();
    if ops.len() == 0 {
    } else {
        let hd = ops.drop_last();
        let x = ops.last();
        assert(ops_canon(hd) && compat_histories(hd, hd)) by {
            assert(forall|i: int| 0 <= i < ops.len() - 1 ==> hd[i] == ops[i]);
        }
        lemma_apply_all_equals_merge_all(hd);
        let a = apply_all(none, hd);
        assert(entries_canon(a)) by {
            assert(entries_canon(none));
            lemma_apply_all_canon(none, hd);
        }
        lemma_apply_all_compact(hd);
        assert(forall|e: (Map<u64, u64>, V)| #[trigger] a.contains(e) && e.0 == x.0
            ==> e.1 == x.1) by {
            lemma_apply_all_entries_from_ops(hd);
            assert forall|e: (Map<u64, u64>, V)| #[trigger] a.contains(e) && e.0 == x.0 implies
                e.1 == x.1 by {
                let i = choose|i: int| 0 <= i < hd.len() && e == #[trigger] hd[i];
                assert(ops[i] == e);
                assert(ops[ops.len() - 1] == x);
                assert(compat_ops(ops[i], ops[ops.len() - 1]));
            }
        }
        lemma_put_merge_equivalent(a, x.0, x.1);
    }
}

/// Truncating by the empty clock changes nothing.
pub proof fn lemma_truncate_by_empty<V>(s: Set<(Map<u64, u64>, V)>)
    requires
        entries_canon(s),
        forall|e: (Map<u64, u64>, V)| #[trigger] s.contains(e) ==> e.0 != Map::<u64, u64>::empty(),
    ensures
        trunc_set(s, Map::<u64, u64>::empty()) == s,
{
    let k = Map::<u64, u64>::empty();
    assert forall|e: (Map<u64, u64>, V)| #[trigger] s.contains(e) implies c_sub(e.0, k) == e.0 by {
        assert(canon(c_sub(e.0, k)));
        assert forall|x: u64| #[trigger] cnt(c_sub(e.0, k), x) == cnt(e.0, x) by {
            assert(cnt(k, x) == 0);
        }
        lemma_canonical_eq(c_sub(e.0, k), e.0);
    }
    assert forall|e: (Map<u64, u64>, V)| #[trigger] s.contains(e) implies trunc_set(
        s,
        k,
    ).contains(e) by {
        assert(s.contains(e) && c_sub(e.0, k) != Map::<u64, u64>::empty() && e == (
            c_sub(e.0, k),
            e.1,
        ));
    }
    assert forall|e2: (Map<u64, u64>, V)| #[trigger] trunc_set(s, k).contains(e2) implies
        s.contains(e2) by {
        let e = choose|e: (Map<u64, u64>, V)| #[trigger] s.contains(e) && c_sub(e.0, k) != Map::<
            u64,
            u64,
        >::empty() && e2 == (c_sub(e.0, k), e.1);
        assert(e2 == e);
    }
    assert(trunc_set(s, k) =~= s);
}

/// Truncating by a clock that covers every entry empties the register.
pub proof fn lemma_truncate_by_all<V>(s: Set<(Map<u64, u64>, V)>, k: Map<u64, u64>)
    requires
        forall|e: (Map<u64, u64>, V)| #[trigger] s.contains(e) ==> c_le(e.0, k),
    ensures
        trunc_set(s, k) == Set::<(Map<u64, u64>, V)>::empty(),
{
    assert forall|e2: (Map<u64, u64>, V)| !(#[trigger] trunc_set(s, k).contains(e2)) by {
        if trunc_set(s, k).contains(e2) {
            let e = choose|e: (Map<u64, u64>, V)| #[trigger] s.contains(e) && c_sub(e.0, k)
                != Map::<u64, u64>::empty() && e2 == (c_sub(e.0, k), e.1);
            assert(c_sub(e.0, k) =~= Map::<u64, u64>::empty()) by {
                assert forall|x: u64| !(#[trigger] c_sub(e.0, k).dom().contains(x)) by {
                    assert(cnt(e.0, x) <= cnt(k, x));
                }
            }
            assert(false);
        }
    }
    assert(trunc_set(s, k) =~= Set::<(Map<u64, u64>, V)>::empty());
}

/// Every entry clock sits below the join of all entry clocks, so truncating
/// by the register's own clock empties it.
pub proof fn lemma_clocks_join_upper<V>(s: Seq<(Map<u64, u64>, V)>)
    ensures
        forall|i: int| 0 <= i < s.len() ==> c_le((#[trigger] s[i]).0, clocks_join(s)),
    decreases s.len(),
{
    if s.len() == 0 {
    } else {
        lemma_clocks_join_upper(s.drop_last());
        assert forall|i: int| 0 <= i < s.len() implies c_le(
            (#[trigger] s[i]).0,
            clocks_join(s),
        ) by {
            if i < s.len() - 1 {
                assert(s.drop_last()[i] == s[i]);
                assert(c_le(s[i].0, clocks_join(s.drop_last())));
                assert forall|x: u64| #[trigger] cnt(s[i].0, x) <= cnt(clocks_join(s), x) by {
                    assert(cnt(s[i].0, x) <= cnt(clocks_join(s.drop_last()), x));
                    assert(cnt(clocks_join(s), x) == max64(
                        cnt(clocks_join(s.drop_last()), x),
                        cnt(s.last().0, x),
                    ));
                }
            } else {
                assert(s[i] == s.last());
                assert forall|x: u64| #[trigger] cnt(s[i].0, x) <= cnt(clocks_join(s), x) by {
                    assert(cnt(clocks_join(s), x) == max64(
                        cnt(clocks_join(s.drop_last()), x),
                        cnt(s.last().0, x),
                    ));
                }
            }
        }
    }
}

/// The entry collection of a register state is finite.
pub proof fn lemma_seq_entries_finite<V>(s: Seq<(Map<u64, u64>, V)>)
    ensures
        seq_entries(s).finite(),
    decreases s.len(),
{
    if s.len() == 0 {
        assert(seq_entries(s) =~= Set::<(Map<u64, u64>, V)>::empty());
    } else {
        lemma_seq_entries_finite(s.drop_last());
        assert(s.drop_last().push(s.last()) =~= s);
        lemma_seq_entries_push(s.drop_last(), s.last());
        assert(seq_entries(s) == seq_entries(s.drop_last()).insert(s.last()));
    }
}

} // verus!
