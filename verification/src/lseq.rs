//! A replicated sequence with dense identifiers.
//!
//! Each entry is addressed by an `Identifier`: a path of `(position, actor)`
//! levels in a tree whose fan-out doubles with depth.  Identifiers are
//! totally ordered; iterating in identifier order yields the user-visible
//! sequence.  Between any two well-formed identifiers a fresh one can always
//! be minted strictly in between, so an insert never needs to displace its
//! neighbours.

use vstd::prelude::*;

use crate::ctx::AddCtx;
use crate::ctx::ReadCtx;
use crate::vclock::c_join;
use crate::vclock::canon;
use crate::vclock::c_sub;
use crate::vclock::Dot;
use crate::vclock::VClock;

verus! {

/// The arity of the identifier tree at its root; it doubles at each level.
pub const BASE: u64 = 32;

/// One level of an identifier path.
#[derive(Clone, Copy, PartialEq, Eq, Structural, Debug)]
pub struct Level {
    pub pos: u64,
    pub actor: u64,
}

/// Strict order on levels: by position, then by actor.
pub open spec fn lv_lt(a: Level, b: Level) -> bool {
    a.pos < b.pos || (a.pos == b.pos && a.actor < b.actor)
}

/// Strict lexicographic order on identifier paths; a proper prefix sorts
/// before its extensions.
pub open spec fn id_lt(a: Seq<Level>, b: Seq<Level>) -> bool
    decreases a.len(),
{
    if b.len() == 0 {
        false
    } else if a.len() == 0 {
        true
    } else if a[0] == b[0] {
        id_lt(a.skip(1), b.skip(1))
    } else {
        lv_lt(a[0], b[0])
    }
}

/// A well-formed identifier is non-empty and does not end at position zero,
/// so that room below it always remains.
pub open spec fn id_wf(a: Seq<Level>) -> bool {
    a.len() > 0 && a.last().pos >= 1
}

/// The identifier order is total.
pub proof fn lemma_id_total(a: Seq<Level>, b: Seq<Level>)
    ensures
        id_lt(a, b) || id_lt(b, a) || a == b,
    decreases a.len(),
{
    if b.len() == 0 {
        if a.len() == 0 {
            assert(a =~= b);
        }
    } else if a.len() == 0 {
    } else if a[0] == b[0] {
        lemma_id_total(a.skip(1), b.skip(1));
        if a.skip(1) == b.skip(1) {
            assert(a.skip(1).len() == a.len() - 1);
            assert(b.skip(1).len() == b.len() - 1);
            assert forall|i: int| 0 <= i < a.len() implies a[i] == b[i] by {
                if i > 0 {
                    assert(a.skip(1)[i - 1] == a[i]);
                    assert(b.skip(1)[i - 1] == b[i]);
                }
            }
            assert(a =~= b);
        }
    } else {
    }
}

/// The identifier order is asymmetric.
pub proof fn lemma_id_asym(a: Seq<Level>, b: Seq<Level>)
    ensures
        !(id_lt(a, b) && id_lt(b, a)),
    decreases a.len(),
{
    if b.len() == 0 || a.len() == 0 {
    } else if a[0] == b[0] {
        lemma_id_asym(a.skip(1), b.skip(1));
    } else {
    }
}

/// The identifier order is irreflexive.
pub proof fn lemma_id_irrefl(a: Seq<Level>)
    ensures
        !id_lt(a, a),
{
    lemma_id_asym(a, a);
}

/// The identifier order is transitive.
pub proof fn lemma_id_trans(a: Seq<Level>, b: Seq<Level>, c: Seq<Level>)
    requires
        id_lt(a, b),
        id_lt(b, c),
    ensures
        id_lt(a, c),
    decreases a.len(),
{
    if a.len() == 0 {
    } else {
        if a[0] == b[0] {
            if b[0] == c[0] {
                lemma_id_trans(a.skip(1), b.skip(1), c.skip(1));
            }
        }
    }
}

/// A proper prefix sorts strictly before its extensions.
pub proof fn lemma_id_prefix(a: Seq<Level>, b: Seq<Level>)
    requires
        a.len() < b.len(),
        a == b.take(a.len() as int),
    ensures
        id_lt(a, b),
    decreases a.len(),
{
    if a.len() == 0 {
    } else {
        assert(a[0] == b.take(a.len() as int)[0]);
        assert forall|i: int| 0 <= i < a.skip(1).len() implies a.skip(1)[i] == b.skip(1).take(
            a.skip(1).len() as int,
        )[i] by {
            assert(a.skip(1)[i] == a[i + 1]);
            assert(a[i + 1] == b.take(a.len() as int)[i + 1]);
            assert(b.skip(1)[i] == b[i + 1]);
        }
        assert(a.skip(1) =~= b.skip(1).take(a.skip(1).len() as int));
        lemma_id_prefix(a.skip(1), b.skip(1));
    }
}

/// Two paths that first differ at index `d` compare by their levels there.
pub proof fn lemma_id_diverge(a: Seq<Level>, b: Seq<Level>, d: int)
    requires
        0 <= d < a.len(),
        d < b.len(),
        forall|i: int| 0 <= i < d ==> a[i] == b[i],
        a[d] != b[d],
    ensures
        id_lt(a, b) == lv_lt(a[d], b[d]),
    decreases d,
{
    if d == 0 {
    } else {
        assert(a[0] == b[0]);
        assert forall|i: int| 0 <= i < d - 1 implies a.skip(1)[i] == b.skip(1)[i] by {
            assert(a.skip(1)[i] == a[i + 1]);
            assert(b.skip(1)[i] == b[i + 1]);
        }
        assert(a.skip(1)[d - 1] == a[d]);
        assert(b.skip(1)[d - 1] == b[d]);
        lemma_id_diverge(a.skip(1), b.skip(1), d - 1);
    }
}

/// A position in the replicated sequence.
pub struct Identifier {
    path: Vec<Level>,
}

impl View for Identifier {
    type V = Seq<Level>;

    closed spec fn view(&self) -> Seq<Level> {
        self.path@
    }
}

impl Identifier {
    /// A structurally fresh copy of the same path.
    pub fn duplicate(&self) -> (r: Identifier)
        ensures
            r@ == self@,
    {
        let n = self.path.len();
        let mut out: Vec<Level> = Vec::new();
        let mut i: usize = 0;
        while i < n
            invariant
                n == self.path@.len(),
                i <= n,
                out@ == self.path@.take(i as int),
            decreases n - i,
        {
            out.push(self.path[i]);
            proof {
                assert(out@ =~= self.path@.take(i + 1));
            }
            i += 1;
        }
        let r = Identifier { path: out };
        proof {
            assert(r.path@ =~= self.path@);
        }
        r
    }

    /// How many levels the path holds.
    pub fn depth(&self) -> (r: usize)
        ensures
            r == self@.len(),
    {
        self.path.len()
    }

    /// Strict identifier order.
    pub fn lt(&self, other: &Identifier) -> (r: bool)
        ensures
            r == id_lt(self@, other@),
    {
        let n1 = self.path.len();
        let n2 = other.path.len();
        let mut i: usize = 0;
        while i < n1 && i < n2
            invariant
                n1 == self.path@.len(),
                n2 == other.path@.len(),
                i <= n1,
                i <= n2,
                forall|j: int| 0 <= j < i ==> self.path@[j] == other.path@[j],
            decreases n1 - i,
        {
            let x = self.path[i];
            let y = other.path[i];
            if x.pos != y.pos || x.actor != y.actor {
                proof {
                    lemma_id_diverge(self@, other@, i as int);
                }
                return x.pos < y.pos || (x.pos == y.pos && x.actor < y.actor);
            }
            i += 1;
        }
        proof {
            if n1 < n2 {
                assert forall|j: int| 0 <= j < n1 implies self@[j] == other@.take(n1 as int)[j] by {
                }
                assert(self@ =~= other@.take(n1 as int));
                lemma_id_prefix(self@, other@);
            } else if n2 < n1 {
                assert forall|j: int| 0 <= j < n2 implies other@[j] == self@.take(n2 as int)[j] by {
                }
                assert(other@ =~= self@.take(n2 as int));
                lemma_id_prefix(other@, self@);
                lemma_id_asym(self@, other@);
            } else {
                assert(self@ =~= other@);
                lemma_id_irrefl(self@);
            }
        }
        n1 < n2
    }

    /// Structural equality of paths.
    pub fn same(&self, other: &Identifier) -> (r: bool)
        ensures
            r == (self@ == other@),
    {
        let n1 = self.path.len();
        let n2 = other.path.len();
        if n1 != n2 {
            return false;
        }
        let mut i: usize = 0;
        while i < n1
            invariant
                n1 == self.path@.len(),
                n2 == other.path@.len(),
                n1 == n2,
                i <= n1,
                forall|j: int| 0 <= j < i ==> self.path@[j] == other.path@[j],
            decreases n1 - i,
        {
            let x = self.path[i];
            let y = other.path[i];
            if x.pos != y.pos || x.actor != y.actor {
                return false;
            }
            i += 1;
        }
        proof {
            assert(self@ =~= other@);
        }
        true
    }
}

/// The errors a sequence surfaces to its host.
#[derive(Clone, Copy, PartialEq, Eq, Structural, Debug)]
pub enum Error {
    /// A delete targeted an identifier not present; under causal delivery
    /// this marks a host fault.
    UnknownIdentifier,
    /// No fresh identifier could be minted between the given neighbours.
    IdentifierExhaustion,
}

/// Whether `x` lies strictly above the optional lower neighbour.
pub open spec fn lower_ok(p: Option<&Identifier>, x: Seq<Level>) -> bool {
    match p {
        None => true,
        Some(pp) => id_lt(pp@, x),
    }
}

/// Whether `x` lies strictly below the optional upper neighbour.
pub open spec fn upper_ok(q: Option<&Identifier>, x: Seq<Level>) -> bool {
    match q {
        None => true,
        Some(qq) => id_lt(x, qq@),
    }
}


/// The fan-out bound one level deeper: it doubles until a cap keeps the
/// arithmetic comfortably inside `u64`.
pub open spec fn next_width(w: u64) -> u64 {
    if w < 0x2000_0000_0000_0000 {
        (w * 2) as u64
    } else {
        w
    }
}

/// The suffix the allocator appends below the shared prefix, as a function
/// of what remains of the two neighbours' paths (`pp`, `qq`; empty when that
/// side no longer constrains), the fan-out `w` at the current depth, and the
/// inserting event's actor and counter stamp.
pub open spec fn alloc_rec(
    pp: Seq<Level>,
    qq: Seq<Level>,
    w: u64,
    actor: u64,
    tail: u64,
) -> Option<Seq<Level>>
    decreases pp.len() + qq.len(),
{
    let lo: u64 = if pp.len() > 0 {
        pp[0].pos
    } else {
        0
    };
    let hi: u64 = if qq.len() > 0 {
        qq[0].pos
    } else {
        w
    };
    if hi > lo && hi - lo >= 2 {
        Some(
            seq![
                Level { pos: (lo + (hi - lo) / 2) as u64, actor },
                Level { pos: tail, actor },
            ],
        )
    } else if pp.len() > 0 && qq.len() > 0 && pp[0] == qq[0] {
        match alloc_rec(pp.skip(1), qq.skip(1), next_width(w), actor, tail) {
            None => None,
            Some(sfx) => Some(seq![pp[0]] + sfx),
        }
    } else if pp.len() > 0 {
        match alloc_rec(pp.skip(1), Seq::empty(), next_width(w), actor, tail) {
            None => None,
            Some(sfx) => Some(seq![pp[0]] + sfx),
        }
    } else if qq.len() > 1 {
        match alloc_rec(Seq::empty(), qq.skip(1), next_width(w), actor, tail) {
            None => None,
            Some(sfx) => Some(seq![qq[0]] + sfx),
        }
    } else if qq.len() == 1 && qq[0].pos >= 1 {
        match alloc_rec(Seq::empty(), Seq::empty(), next_width(w), actor, tail) {
            None => None,
            Some(sfx) => Some(seq![Level { pos: 0, actor }] + sfx),
        }
    } else {
        None
    }
}

/// The view of an optional identifier reference.
pub open spec fn ov(x: Option<&Identifier>) -> Option<Seq<Level>> {
    match x {
        None => None,
        Some(id) => Some(id@),
    }
}

/// The view of an optional identifier value.
pub open spec fn ovv(x: Option<Identifier>) -> Option<Seq<Level>> {
    match x {
        None => None,
        Some(id) => Some(id@),
    }
}

/// The identifier minted between two neighbours for a given insert event: a
/// function of `(p, q, actor, counter)` alone, which is what makes replicas
/// applying the same op allocate the same identifier.  `None` when nothing
/// fits below the upper neighbour.
pub open spec fn alloc_spec(p: Option<Seq<Level>>, q: Option<Seq<Level>>, event: Dot) -> Option<
    Seq<Level>,
> {
    let tail: u64 = if event.counter >= 1 {
        event.counter
    } else {
        1
    };
    if q is Some && q.unwrap().len() == 0 {
        None
    } else {
        alloc_rec(
            if p is Some {
                p.unwrap()
            } else {
                Seq::empty()
            },
            if q is Some {
                q.unwrap()
            } else {
                Seq::empty()
            },
            BASE,
            event.actor,
            tail,
        )
    }
}

/// The whole identifier the allocator returns once `prefix` has been laid
/// down and the remaining constraints are `pp`, `qq`.
spec fn alloc_cont(
    prefix: Seq<Level>,
    pp: Seq<Level>,
    qq: Seq<Level>,
    w: u64,
    actor: u64,
    tail: u64,
) -> Option<Seq<Level>> {
    match alloc_rec(pp, qq, w, actor, tail) {
        None => None,
        Some(sfx) => Some(prefix + sfx),
    }
}

proof fn lemma_skip_one(s: Seq<Level>, d: int)
    requires
        0 <= d < s.len(),
    ensures
        s.skip(d + 1) == s.skip(d).skip(1),
{
    assert forall|i: int| 0 <= i < s.skip(d + 1).len() implies s.skip(d + 1)[i] == s.skip(d).skip(
        1,
    )[i] by {
        assert(s.skip(d + 1)[i] == s[d + 1 + i]);
        assert(s.skip(d).skip(1)[i] == s.skip(d)[i + 1]);
        assert(s.skip(d)[i + 1] == s[d + 1 + i]);
    }
    assert(s.skip(d + 1) =~= s.skip(d).skip(1));
}

/// Whether a gap of at least two positions opens at the current level.
spec fn gap_at(cur_pp: Seq<Level>, cur_qq: Seq<Level>, w: u64) -> bool {
    let lo: u64 = if cur_pp.len() > 0 {
        cur_pp[0].pos
    } else {
        0
    };
    let hi: u64 = if cur_qq.len() > 0 {
        cur_qq[0].pos
    } else {
        w
    };
    hi > lo && hi - lo >= 2
}

proof fn lemma_step_mid(
    resv: Seq<Level>,
    cur_pp: Seq<Level>,
    cur_qq: Seq<Level>,
    w: u64,
    actor: u64,
    tail: u64,
    goal: Option<Seq<Level>>,
)
    requires
        gap_at(cur_pp, cur_qq, w),
        alloc_cont(resv, cur_pp, cur_qq, w, actor, tail) == goal,
    ensures
        ({
            let lo: u64 = if cur_pp.len() > 0 {
                cur_pp[0].pos
            } else {
                0
            };
            let hi: u64 = if cur_qq.len() > 0 {
                cur_qq[0].pos
            } else {
                w
            };
            goal == Some(
                resv + seq![
                    Level { pos: ((lo + (hi - lo) / 2)) as u64, actor },
                    Level { pos: tail, actor },
                ],
            )
        }),
{
}

proof fn lemma_step_equal(
    resv: Seq<Level>,
    cur_pp: Seq<Level>,
    cur_qq: Seq<Level>,
    w: u64,
    actor: u64,
    tail: u64,
    goal: Option<Seq<Level>>,
)
    requires
        cur_pp.len() > 0,
        cur_qq.len() > 0,
        cur_pp[0] == cur_qq[0],
        !gap_at(cur_pp, cur_qq, w),
        alloc_cont(resv, cur_pp, cur_qq, w, actor, tail) == goal,
    ensures
        alloc_cont(
            resv.push(cur_pp[0]),
            cur_pp.skip(1),
            cur_qq.skip(1),
            next_width(w),
            actor,
            tail,
        ) == goal,
{
    lemma_cont_cons(
        resv,
        cur_pp[0],
        cur_pp,
        cur_qq,
        w,
        actor,
        tail,
        cur_pp.skip(1),
        cur_qq.skip(1),
        next_width(w),
    );
}

proof fn lemma_step_p(
    resv: Seq<Level>,
    cur_pp: Seq<Level>,
    cur_qq: Seq<Level>,
    w: u64,
    actor: u64,
    tail: u64,
    goal: Option<Seq<Level>>,
)
    requires
        cur_pp.len() > 0,
        cur_qq.len() > 0 ==> cur_pp[0] != cur_qq[0],
        !gap_at(cur_pp, cur_qq, w),
        alloc_cont(resv, cur_pp, cur_qq, w, actor, tail) == goal,
    ensures
        alloc_cont(
            resv.push(cur_pp[0]),
            cur_pp.skip(1),
            Seq::empty(),
            next_width(w),
            actor,
            tail,
        ) == goal,
{
    lemma_cont_cons(
        resv,
        cur_pp[0],
        cur_pp,
        cur_qq,
        w,
        actor,
        tail,
        cur_pp.skip(1),
        Seq::empty(),
        next_width(w),
    );
}

proof fn lemma_step_qcopy(
    resv: Seq<Level>,
    cur_qq: Seq<Level>,
    w: u64,
    actor: u64,
    tail: u64,
    goal: Option<Seq<Level>>,
)
    requires
        cur_qq.len() > 1,
        !gap_at(Seq::empty(), cur_qq, w),
        alloc_cont(resv, Seq::empty(), cur_qq, w, actor, tail) == goal,
    ensures
        alloc_cont(
            resv.push(cur_qq[0]),
            Seq::empty(),
            cur_qq.skip(1),
            next_width(w),
            actor,
            tail,
        ) == goal,
{
    lemma_cont_cons(
        resv,
        cur_qq[0],
        Seq::empty(),
        cur_qq,
        w,
        actor,
        tail,
        Seq::empty(),
        cur_qq.skip(1),
        next_width(w),
    );
}

proof fn lemma_step_stuck(
    resv: Seq<Level>,
    cur_qq: Seq<Level>,
    w: u64,
    actor: u64,
    tail: u64,
    goal: Option<Seq<Level>>,
)
    requires
        cur_qq.len() == 1,
        cur_qq[0].pos >= 1,
        !gap_at(Seq::empty(), cur_qq, w),
        alloc_cont(resv, Seq::empty(), cur_qq, w, actor, tail) == goal,
    ensures
        alloc_cont(
            resv.push(Level { pos: 0, actor }),
            Seq::empty(),
            Seq::empty(),
            next_width(w),
            actor,
            tail,
        ) == goal,
{
    lemma_cont_cons(
        resv,
        Level { pos: 0, actor },
        Seq::empty(),
        cur_qq,
        w,
        actor,
        tail,
        Seq::empty(),
        Seq::empty(),
        next_width(w),
    );
}

proof fn lemma_step_none(
    resv: Seq<Level>,
    cur_qq: Seq<Level>,
    w: u64,
    actor: u64,
    tail: u64,
    goal: Option<Seq<Level>>,
)
    requires
        cur_qq.len() == 1,
        cur_qq[0].pos == 0,
        !gap_at(Seq::empty(), cur_qq, w),
        alloc_cont(resv, Seq::empty(), cur_qq, w, actor, tail) == goal,
    ensures
        goal is None,
{
}

proof fn lemma_cont_cons(
    prefix: Seq<Level>,
    l: Level,
    pp: Seq<Level>,
    qq: Seq<Level>,
    w: u64,
    actor: u64,
    tail: u64,
    pp2: Seq<Level>,
    qq2: Seq<Level>,
    w2: u64,
)
    requires
        alloc_rec(pp, qq, w, actor, tail) == (match alloc_rec(pp2, qq2, w2, actor, tail) {
            None => None,
            Some(sfx) => Some(seq![l] + sfx),
        }),
    ensures
        alloc_cont(prefix, pp, qq, w, actor, tail) == alloc_cont(
            prefix.push(l),
            pp2,
            qq2,
            w2,
            actor,
            tail,
        ),
{
    match alloc_rec(pp2, qq2, w2, actor, tail) {
        None => {},
        Some(sfx) => {
            assert(prefix + (seq![l] + sfx) =~= prefix.push(l) + sfx);
        },
    }
}

/// Mint a fresh identifier strictly between `p` and `q`, deterministically
/// from `(p, q, actor, counter)` of the insert event.  Walk the two paths
/// level by level; at the first level with a gap of at least two positions,
/// take the midpoint and stamp the event's counter one level below it, so
/// that distinct events of one actor between the same neighbours mint
/// distinct identifiers; otherwise descend along the side the new identifier
/// must hug.  Fails only below an ill-formed upper neighbour that ends at
/// position zero.
#[verifier::rlimit(100)]
pub fn alloc_id(p: Option<&Identifier>, q: Option<&Identifier>, event: Dot) -> (r: Result<
    Identifier,
    Error,
>)
    requires
        (p is Some && q is Some) ==> id_lt(p.unwrap()@, q.unwrap()@),
    ensures
        match r {
            Ok(id) => id_wf(id@) && lower_ok(p, id@) && upper_ok(q, id@) && Some(id@)
                == alloc_spec(ov(p), ov(q), event),
            Err(e) => e == Error::IdentifierExhaustion && q is Some && !id_wf(q.unwrap()@)
                && alloc_spec(ov(p), ov(q), event) is None,
        },
{
    let plen: usize = match p {
        Some(pp) => pp.path.len(),
        None => 0,
    };
    let qlen: usize = match q {
        Some(qq) => qq.path.len(),
        None => 0,
    };
    match q {
        Some(qq) => {
            if qq.path.len() == 0 {
                proof {
                    assert(alloc_spec(ov(p), ov(q), event) is None);
                }
                return Err(Error::IdentifierExhaustion);
            }
        },
        None => {},
    }
    let actor = event.actor;
    let ghost tailv: u64 = if event.counter >= 1 {
        event.counter
    } else {
        1
    };
    let ghost goal = alloc_spec(ov(p), ov(q), event);
    let mut res: Vec<Level> = Vec::new();
    let mut pact: bool = match p {
        Some(_) => true,
        None => false,
    };
    let mut qact: bool = match q {
        Some(_) => true,
        None => false,
    };
    let mut d: usize = 0;
    let mut w: u64 = BASE;
    proof {
        let pp0: Seq<Level> = if p is Some {
            p.unwrap()@
        } else {
            Seq::empty()
        };
        let qq0: Seq<Level> = if q is Some {
            q.unwrap()@
        } else {
            Seq::empty()
        };
        if p is Some {
            assert(p.unwrap()@.skip(0) =~= p.unwrap()@);
        }
        if q is Some {
            assert(q.unwrap()@.skip(0) =~= q.unwrap()@);
        }
        assert(goal == alloc_rec(pp0, qq0, BASE, actor, tailv));
        match alloc_rec(pp0, qq0, BASE, actor, tailv) {
            None => {},
            Some(sfx) => {
                assert(Seq::<Level>::empty() + sfx =~= sfx);
            },
        }
        assert(alloc_cont(Seq::empty(), pp0, qq0, BASE, actor, tailv) == goal);
    }
    loop
        invariant
            (p is Some && q is Some) ==> id_lt(p.unwrap()@, q.unwrap()@),
            plen == (match p {
                Some(pp) => pp@.len(),
                None => 0,
            }),
            qlen == (match q {
                Some(qq) => qq@.len(),
                None => 0,
            }),
            res@.len() == d,
            w >= 2,
            pact ==> p is Some && d <= plen && res@ == p.unwrap()@.take(d as int),
            !pact ==> forall|s: Seq<Level>| s.len() >= 1 ==> #[trigger] lower_ok(p, res@ + s),
            qact ==> q is Some && d <= qlen && res@ == q.unwrap()@.take(d as int),
            qact ==> (pact || d < qlen),
            qact ==> qlen >= 1,
            !qact ==> forall|s: Seq<Level>| #[trigger] upper_ok(q, res@ + s),
            actor == event.actor,
            tailv == (if event.counter >= 1 {
                event.counter
            } else {
                1u64
            }),
            goal == alloc_spec(ov(p), ov(q), event),
            alloc_cont(
                res@,
                (if pact {
                    p.unwrap()@.skip(d as int)
                } else {
                    Seq::<Level>::empty()
                }),
                (if qact {
                    q.unwrap()@.skip(d as int)
                } else {
                    Seq::<Level>::empty()
                }),
                w,
                actor,
                tailv,
            ) == goal,
        decreases (if pact {
            plen - d
        } else {
            0
        }) + (if qact {
            qlen - d
        } else {
            0
        }) + 1,
    {
        let p_live = pact && d < plen;
        let q_live = qact && d < qlen;
        proof {
            if qact && d >= qlen {
                // q would be a prefix of the levels consumed so far; with
                // p < q that leaves p strictly above q, impossible.
                let qq = q.unwrap()@;
                assert(res@ == qq.take(d as int));
                assert(qq.take(d as int) =~= qq);
                if pact {
                    let ppp = p.unwrap()@;
                    assert(res@ == ppp.take(d as int));
                    if d < plen {
                        assert forall|i: int| 0 <= i < qq.len() implies qq[i] == ppp.take(
                            qq.len() as int,
                        )[i] by {
                            assert(ppp.take(d as int)[i] == ppp[i]);
                        }
                        assert(qq =~= ppp.take(qq.len() as int));
                        lemma_id_prefix(qq, ppp);
                        lemma_id_asym(ppp, qq);
                        assert(false);
                    } else {
                        assert(ppp.take(d as int) =~= ppp);
                        lemma_id_irrefl(ppp);
                        assert(false);
                    }
                }
            }
            assert(qact ==> d < qlen);
        }
        let lo: u64 = if p_live {
            match p {
                Some(pp) => pp.path[d].pos,
                None => 0,
            }
        } else {
            0
        };
        let hi: u64 = if q_live {
            match q {
                Some(qq) => qq.path[d].pos,
                None => w,
            }
        } else {
            w
        };
        if hi > lo && hi - lo >= 2 {
            let x = lo + (hi - lo) / 2;
            let lvl = Level { pos: x, actor };
            let tail = Level {
                pos: if event.counter >= 1 {
                    event.counter
                } else {
                    1
                },
                actor,
            };
            let ghost resv = res@;
            res.push(lvl);
            res.push(tail);
            proof {
                let newid = res@;
                assert(newid == resv.push(lvl).push(tail));
                assert(newid =~= resv + seq![lvl, tail]);
                assert(newid.last() == tail);
                assert(tail.pos >= 1);
                assert(x >= 1);
                // strictly above p
                if pact {
                    let ppp = p.unwrap()@;
                    if d < plen {
                        assert(newid[d as int] == lvl);
                        assert(ppp[d as int].pos == lo);
                        assert forall|i: int| 0 <= i < d implies newid[i] == ppp[i] by {
                            assert(resv == ppp.take(d as int));
                            assert(newid[i] == resv[i]);
                        }
                        assert(lvl != ppp[d as int]);
                        lemma_id_diverge(ppp, newid, d as int);
                        assert(lv_lt(ppp[d as int], lvl));
                    } else {
                        assert(resv == ppp.take(d as int));
                        assert(ppp.take(d as int) =~= ppp);
                        assert forall|i: int| 0 <= i < ppp.len() implies ppp[i] == newid.take(
                            ppp.len() as int,
                        )[i] by {
                            assert(newid[i] == resv[i]);
                        }
                        assert(ppp =~= newid.take(ppp.len() as int));
                        lemma_id_prefix(ppp, newid);
                    }
                } else {
                    assert(lower_ok(p, resv + seq![lvl, tail]));
                }
                // strictly below q
                if qact {
                    let qq = q.unwrap()@;
                    assert(d < qlen);
                    assert(newid[d as int] == lvl);
                    assert(qq[d as int].pos == hi);
                    assert forall|i: int| 0 <= i < d implies newid[i] == qq[i] by {
                        assert(resv == qq.take(d as int));
                        assert(newid[i] == resv[i]);
                    }
                    assert(lvl != qq[d as int]);
                    lemma_id_diverge(newid, qq, d as int);
                    assert(lv_lt(lvl, qq[d as int]));
                } else {
                    assert(upper_ok(q, resv + seq![lvl, tail]));
                }
                // the allocator function returns exactly this identifier
                let cur_pp: Seq<Level> = if pact {
                    p.unwrap()@.skip(d as int)
                } else {
                    Seq::empty()
                };
                let cur_qq: Seq<Level> = if qact {
                    q.unwrap()@.skip(d as int)
                } else {
                    Seq::empty()
                };
                if p_live {
                    assert(cur_pp[0] == p.unwrap()@[d as int]);
                } else if pact {
                    assert(cur_pp.len() == 0);
                }
                if q_live {
                    assert(cur_qq[0] == q.unwrap()@[d as int]);
                } else if qact {
                    assert(cur_qq.len() == 0);
                }
                assert(gap_at(cur_pp, cur_qq, w));
                lemma_step_mid(resv, cur_pp, cur_qq, w, actor, tailv, goal);
                assert(goal == Some(newid));
            }
            return Ok(Identifier { path: res });
        }
        if p_live && q_live {
            let pl = match p {
                Some(pp) => pp.path[d],
                None => Level { pos: 0, actor: 0 },
            };
            let ql = match q {
                Some(qq) => qq.path[d],
                None => Level { pos: 0, actor: 0 },
            };
            if pl.pos == ql.pos && pl.actor == ql.actor {
                // shared level: follow both sides one level deeper
                let ghost resv = res@;
                res.push(pl);
                proof {
                    assert(res@ =~= p.unwrap()@.take(d + 1));
                    assert(res@ =~= q.unwrap()@.take(d + 1));
                    let cur_pp = p.unwrap()@.skip(d as int);
                    let cur_qq = q.unwrap()@.skip(d as int);
                    assert(cur_pp[0] == p.unwrap()@[d as int]);
                    assert(cur_qq[0] == q.unwrap()@[d as int]);
                    assert(cur_pp[0] == pl && cur_qq[0] == ql && pl == ql);
                    lemma_skip_one(p.unwrap()@, d as int);
                    lemma_skip_one(q.unwrap()@, d as int);
                    lemma_step_equal(resv, cur_pp, cur_qq, w, actor, tailv, goal);
                }
                d += 1;
                if w < 0x2000_0000_0000_0000 {
                    w = w * 2;
                }
                continue;
            }
        }
        if p_live {
            // descend along p; anything under the copied level stays below q
            let pl = match p {
                Some(pp) => pp.path[d],
                None => Level { pos: 0, actor: 0 },
            };
            let ghost resv = res@;
            let ghost was_qact = qact;
            res.push(pl);
            qact = false;
            proof {
                let ppp = p.unwrap()@;
                assert(res@ =~= ppp.take(d + 1));
                if was_qact {
                    let qq = q.unwrap()@;
                    assert(d < qlen);
                    assert(ppp[d as int] != qq[d as int]);
                    assert forall|i: int| 0 <= i < d implies ppp[i] == qq[i] by {
                        assert(resv == ppp.take(d as int));
                        assert(resv == qq.take(d as int));
                        assert(resv[i] == ppp[i]);
                        assert(resv[i] == qq[i]);
                    }
                    lemma_id_diverge(ppp, qq, d as int);
                    assert(lv_lt(ppp[d as int], qq[d as int]));
                    assert forall|s: Seq<Level>| #[trigger] upper_ok(q, res@ + s) by {
                        let x = res@ + s;
                        assert(x.len() > d);
                        assert(x[d as int] == ppp[d as int]);
                        assert forall|i: int| 0 <= i < d implies x[i] == qq[i] by {
                            assert(x[i] == resv[i]);
                            assert(resv[i] == qq[i]);
                        }
                        lemma_id_diverge(x, qq, d as int);
                    }
                } else {
                    assert forall|s: Seq<Level>| #[trigger] upper_ok(q, res@ + s) by {
                        assert(res@ + s =~= resv + (seq![pl] + s));
                        assert(upper_ok(q, resv + (seq![pl] + s)));
                    }
                }
                let cur_pp = p.unwrap()@.skip(d as int);
                let cur_qq: Seq<Level> = if was_qact {
                    q.unwrap()@.skip(d as int)
                } else {
                    Seq::empty()
                };
                assert(cur_pp[0] == p.unwrap()@[d as int]);
                assert(cur_pp[0] == pl);
                if was_qact {
                    assert(cur_qq[0] == q.unwrap()@[d as int]);
                    assert(cur_pp[0] != cur_qq[0]);
                }
                lemma_skip_one(p.unwrap()@, d as int);
                lemma_step_p(resv, cur_pp, cur_qq, w, actor, tailv, goal);
            }
            d += 1;
            if w < 0x2000_0000_0000_0000 {
                w = w * 2;
            }
            continue;
        }
        if q_live {
            // p no longer constrains; any extension of the path stays above it
            let ghost was_pact = pact;
            let ghost resv = res@;
            proof {
                if was_pact {
                    let ppp = p.unwrap()@;
                    assert(d >= plen);
                    assert(resv == ppp.take(d as int));
                    assert(ppp.take(d as int) =~= ppp);
                    assert forall|s: Seq<Level>| s.len() >= 1 implies #[trigger] lower_ok(
                        p,
                        resv + s,
                    ) by {
                        let x = resv + s;
                        assert forall|i: int| 0 <= i < ppp.len() implies ppp[i] == x.take(
                            ppp.len() as int,
                        )[i] by {
                            assert(x[i] == resv[i]);
                        }
                        assert(ppp =~= x.take(ppp.len() as int));
                        lemma_id_prefix(ppp, x);
                    }
                }
            }
            pact = false;
            let ql = match q {
                Some(qq) => qq.path[d],
                None => Level { pos: 0, actor: 0 },
            };
            if d + 1 < qlen {
                // q continues below: copy its level and keep descending
                res.push(ql);
                proof {
                    assert(res@ =~= q.unwrap()@.take(d + 1));
                    assert forall|s: Seq<Level>| s.len() >= 1 implies #[trigger] lower_ok(
                        p,
                        res@ + s,
                    ) by {
                        assert(res@ + s =~= resv + (seq![ql] + s));
                        assert(lower_ok(p, resv + (seq![ql] + s)));
                    }
                    let cur_pp: Seq<Level> = if was_pact {
                        p.unwrap()@.skip(d as int)
                    } else {
                        Seq::empty()
                    };
                    let cur_qq = q.unwrap()@.skip(d as int);
                    assert(cur_pp.len() == 0);
                    assert(cur_pp =~= Seq::<Level>::empty());
                    assert(cur_qq[0] == q.unwrap()@[d as int]);
                    assert(cur_qq[0] == ql);
                    assert(cur_qq.len() > 1);
                    lemma_skip_one(q.unwrap()@, d as int);
                    lemma_step_qcopy(resv, cur_qq, w, actor, tailv, goal);
                }
                d += 1;
                if w < 0x2000_0000_0000_0000 {
                    w = w * 2;
                }
                continue;
            } else if ql.pos >= 1 {
                // q ends here at position >= 1: slip below it and finish at
                // the next level down
                let lvl = Level { pos: 0, actor };
                let ghost was_qact2 = qact;
                res.push(lvl);
                qact = false;
                proof {
                    let qq = q.unwrap()@;
                    assert(res@ == resv.push(lvl));
                    assert forall|s: Seq<Level>| s.len() >= 1 implies #[trigger] lower_ok(
                        p,
                        res@ + s,
                    ) by {
                        assert(res@ + s =~= resv + (seq![lvl] + s));
                        assert(lower_ok(p, resv + (seq![lvl] + s)));
                    }
                    assert forall|s: Seq<Level>| #[trigger] upper_ok(q, res@ + s) by {
                        let x = res@ + s;
                        assert(x.len() > d);
                        assert(x[d as int] == lvl);
                        assert(d < qq.len());
                        assert(qq[d as int].pos >= 1);
                        assert(lvl != qq[d as int]);
                        assert forall|i: int| 0 <= i < d implies x[i] == qq[i] by {
                            assert(x[i] == resv[i]);
                            assert(resv == qq.take(d as int));
                            assert(resv[i] == qq[i]);
                        }
                        lemma_id_diverge(x, qq, d as int);
                        assert(lv_lt(lvl, qq[d as int]));
                    }
                    let cur_pp: Seq<Level> = if was_pact {
                        p.unwrap()@.skip(d as int)
                    } else {
                        Seq::empty()
                    };
                    let cur_qq = qq.skip(d as int);
                    assert(cur_pp.len() == 0);
                    assert(cur_pp =~= Seq::<Level>::empty());
                    assert(cur_qq[0] == qq[d as int]);
                    assert(cur_qq[0] == ql);
                    assert(cur_qq.len() == 1);
                    lemma_step_stuck(resv, cur_qq, w, actor, tailv, goal);
                }
                d += 1;
                if w < 0x2000_0000_0000_0000 {
                    w = w * 2;
                }
                continue;
            } else {
                // q ends at position zero: nothing fits below it
                proof {
                    let qq = q.unwrap()@;
                    assert(d == qq.len() - 1);
                    assert(qq.last().pos == 0);
                    assert(!id_wf(qq));
                    let cur_pp: Seq<Level> = if was_pact {
                        p.unwrap()@.skip(d as int)
                    } else {
                        Seq::empty()
                    };
                    let cur_qq = qq.skip(d as int);
                    assert(cur_pp.len() == 0);
                    assert(cur_pp =~= Seq::<Level>::empty());
                    assert(cur_qq.len() == 1);
                    assert(cur_qq[0] == qq[d as int]);
                    assert(cur_qq[0].pos == 0);
                    lemma_step_none(resv, cur_qq, w, actor, tailv, goal);
                    assert(goal is None);
                }
                return Err(Error::IdentifierExhaustion);
            }
        }
        // neither side constrains: the gap (0, w) is at least two wide, so
        // the midpoint branch above must have returned
        proof {
            assert(!p_live && !q_live);
            assert(lo == 0 && hi == w);
            assert(false);
        }
        return Err(Error::IdentifierExhaustion);
    }
}

/// Whether a sequence state holds an entry under `id`.
pub open spec fn has_id<V>(s: Seq<(Seq<Level>, Dot, V)>, id: Seq<Level>) -> bool {
    exists|i: int| 0 <= i < s.len() && (#[trigger] s[i]).0 == id
}

/// The operations of the replicated sequence.
pub enum Op<V> {
    /// Insert `value` between the neighbours the originator observed;
    /// `clock` is the causal context and `dot` names the insert event.
    Insert { clock: VClock, dot: Dot, value: V, p: Option<Identifier>, q: Option<Identifier> },
    /// Remove the entry at `id`; `clock` is what the remover had observed.
    Delete { clock: VClock, id: Identifier },
}

/// A well-formed op carries a well-formed clock.
pub open spec fn op_wf<V>(op: Op<V>) -> bool {
    match op {
        Op::Insert { clock, .. } => clock.wf(),
        Op::Delete { clock, .. } => clock.wf(),
    }
}

/// A replicated sequence: entries sorted by identifier, plus the clock
/// summarizing every event applied so far.
pub struct LSeq<V> {
    entries: Vec<(Identifier, Dot, V)>,
    clock: VClock,
}

impl<V> LSeq<V> {
    /// The entries in identifier order, as `(identifier, dot, value)`.
    pub closed spec fn seqv(self) -> Seq<(Seq<Level>, Dot, V)> {
        self.entries@.map(|i: int, e: (Identifier, Dot, V)| (e.0@, e.1, e.2))
    }

    /// The summary clock.
    pub closed spec fn clockv(self) -> Map<u64, u64> {
        self.clock@
    }

    /// Identifiers strictly increase, every identifier is well-formed, and
    /// the summary clock is a well-formed version vector.
    pub closed spec fn wf(self) -> bool {
        &&& self.clock.wf()
        &&& forall|i: int, j: int|
            0 <= i < j < self.entries@.len() ==> id_lt(
                (#[trigger] self.entries@[i]).0@,
                (#[trigger] self.entries@[j]).0@,
            )
        &&& forall|i: int| 0 <= i < self.entries@.len() ==> id_wf((#[trigger] self.entries@[i]).0@)
    }

    /// Entries of a well-formed sequence are sorted and well-formed at the
    /// view level too.
    pub proof fn lemma_wf_view(self)
        requires
            self.wf(),
        ensures
            forall|i: int, j: int|
                0 <= i < j < self.seqv().len() ==> id_lt(
                    (#[trigger] self.seqv()[i]).0,
                    (#[trigger] self.seqv()[j]).0,
                ),
            forall|i: int| 0 <= i < self.seqv().len() ==> id_wf((#[trigger] self.seqv()[i]).0),
    {
        assert forall|i: int, j: int| 0 <= i < j < self.seqv().len() implies id_lt(
            (#[trigger] self.seqv()[i]).0,
            (#[trigger] self.seqv()[j]).0,
        ) by {
            assert(self.seqv()[i].0 == self.entries@[i].0@);
            assert(self.seqv()[j].0 == self.entries@[j].0@);
        }
        assert forall|i: int| 0 <= i < self.seqv().len() implies id_wf(
            (#[trigger] self.seqv()[i]).0,
        ) by {
            assert(self.seqv()[i].0 == self.entries@[i].0@);
        }
    }
    /// The summary clock of a well-formed sequence is canonical, so
    /// pointwise clock facts translate into map equalities.
    pub proof fn lemma_wf_clock_canon(self)
        requires
            self.wf(),
        ensures
            canon(self.clockv()),
    {
        self.clock.lemma_wf_canon();
    }
}

impl<V: crate::mvreg::Val> LSeq<V> {
    /// An empty sequence under the empty clock.
    pub fn new() -> (r: Self)
        ensures
            r.wf(),
            r.seqv() == Seq::<(Seq<Level>, Dot, V)>::empty(),
            r.clockv() == Map::<u64, u64>::empty(),
    {
        let r = LSeq { entries: Vec::new(), clock: VClock::new() };
        proof {
            assert(r.seqv() =~= Seq::<(Seq<Level>, Dot, V)>::empty());
        }
        r
    }

    /// How many entries are alive.
    pub fn len(&self) -> (r: usize)
        ensures
            r == self.seqv().len(),
    {
        self.entries.len()
    }

    /// The identifier of the entry at position `i` of the visible sequence.
    pub fn identifier_at(&self, i: usize) -> (r: Identifier)
        requires
            i < self.seqv().len(),
        ensures
            r@ == self.seqv()[i as int].0,
    {
        proof {
            assert(self.seqv()[i as int].0 == self.entries@[i as int].0@);
        }
        self.entries[i].0.duplicate()
    }

    /// Author an insert between the observed neighbours.  Pure.
    pub fn insert_between(
        &self,
        value: V,
        p: Option<Identifier>,
        q: Option<Identifier>,
        ctx: AddCtx,
    ) -> (r: Op<V>)
        ensures
            r == (Op::Insert { clock: ctx.clock, dot: ctx.dot, value, p, q }),
    {
        Op::Insert { clock: ctx.clock, dot: ctx.dot, value, p, q }
    }

    /// Author a delete of the entry at `id`.  Pure.
    pub fn delete(&self, id: Identifier, ctx: AddCtx) -> (r: Op<V>)
        ensures
            r == (Op::<V>::Delete { clock: ctx.clock, id }),
    {
        Op::Delete { clock: ctx.clock, id }
    }

    /// Read the visible values in identifier order, under the summary clock.
    pub fn read(&self) -> (r: ReadCtx<Vec<V>>)
        requires
            self.wf(),
        ensures
            r.val@.len() == self.seqv().len(),
            forall|i: int| 0 <= i < self.seqv().len() ==> r.val@[i] == self.seqv()[i].2,
            r.add_clock.wf(),
            r.rm_clock.wf(),
            r.add_clock@ == self.clockv(),
            r.rm_clock@ == self.clockv(),
    {
        let c1 = self.clock.duplicate();
        let c2 = self.clock.duplicate();
        let n = self.entries.len();
        let mut vs: Vec<V> = Vec::new();
        let mut i: usize = 0;
        while i < n
            invariant
                self.wf(),
                n == self.entries@.len(),
                i <= n,
                vs@.len() == i,
                forall|j: int| 0 <= j < i ==> vs@[j] == self.seqv()[j].2,
            decreases n - i,
        {
            proof {
                assert(self.seqv()[i as int].2 == self.entries@[i as int].2);
            }
            vs.push(self.entries[i].2.dup());
            i += 1;
        }
        ReadCtx { add_clock: c1, rm_clock: c2, val: vs }
    }

    /// Causal truncation: forget the part of the summary clock covered by
    /// `clock`; the entries themselves are untouched.
    pub fn forget(&mut self, clock: &VClock)
        requires
            old(self).wf(),
        ensures
            final(self).wf(),
            final(self).seqv() == old(self).seqv(),
            final(self).clockv() == c_sub(old(self).clockv(), clock@),
    {
        self.clock.subtract(clock);
    }

    /// Deliver an operation.
    ///
    /// An insert allocates its identifier from the neighbours recorded in
    /// the op, so replicas applying the same op agree on it; a duplicate
    /// delivery leaves the entries unchanged.  A delete removes the entry
    /// outright; its dot stays witnessed only by the summary clock.
    pub fn apply(&mut self, op: &Op<V>) -> (r: Result<(), Error>)
        requires
            old(self).wf(),
            op_wf(*op),
        ensures
            final(self).wf(),
            match *op {
                Op::Insert { clock, dot, value, p, q } => {
                    &&& (clock@ == Map::<u64, u64>::empty() ==> final(self).seqv() == old(
                        self,
                    ).seqv() && final(self).clockv() == old(self).clockv() && r == Ok::<
                        (),
                        Error,
                    >(()))
                    &&& (match r {
                        Ok(_) => clock@ != Map::<u64, u64>::empty() ==> final(self).clockv()
                            == c_join(old(self).clockv(), clock@) && ({
                            let minted = alloc_spec(ovv(p), ovv(q), dot);
                            &&& minted is Some
                            &&& id_wf(minted.unwrap())
                            &&& (p is Some ==> id_lt(p.unwrap()@, minted.unwrap()))
                            &&& (q is Some ==> id_lt(minted.unwrap(), q.unwrap()@))
                            &&& if has_id(old(self).seqv(), minted.unwrap()) {
                                final(self).seqv() == old(self).seqv()
                            } else {
                                exists|k: int|
                                    0 <= k <= old(self).seqv().len() && final(self).seqv() == old(
                                        self,
                                    ).seqv().insert(k, (minted.unwrap(), dot, value))
                            }
                        }),
                        Err(e) => final(self).seqv() == old(self).seqv() && final(self).clockv()
                            == old(self).clockv() && e == Error::IdentifierExhaustion,
                    })
                    &&& ((clock@ != Map::<u64, u64>::empty() && (p is Some && q is Some
                        ==> id_lt(p.unwrap()@, q.unwrap()@)) && (q is Some ==> id_wf(
                        q.unwrap()@,
                    ))) ==> r is Ok)
                },
                Op::Delete { clock, id } => {
                    &&& (clock@ == Map::<u64, u64>::empty() ==> final(self).seqv() == old(
                        self,
                    ).seqv() && final(self).clockv() == old(self).clockv() && r == Ok::<
                        (),
                        Error,
                    >(()))
                    &&& (clock@ != Map::<u64, u64>::empty() ==> (r is Ok <==> has_id(
                        old(self).seqv(),
                        id@,
                    )))
                    &&& (match r {
                        Ok(_) => clock@ != Map::<u64, u64>::empty() ==> ((exists|k: int|
                            0 <= k < old(self).seqv().len() && (#[trigger] old(self).seqv()[k]).0
                                == id@ && final(self).seqv() == old(self).seqv().remove(k))
                            && final(self).clockv() == c_join(old(self).clockv(), clock@)),
                        Err(e) => final(self).seqv() == old(self).seqv() && final(self).clockv()
                            == old(self).clockv() && e == Error::UnknownIdentifier,
                    })
                },
            },
    {
        match op {
            Op::Insert { clock, dot, value, p, q } => {
                proof {
                    assert(*op == (Op::Insert {
                        clock: *clock,
                        dot: *dot,
                        value: *value,
                        p: *p,
                        q: *q,
                    }));
                }
                if clock.is_empty() {
                    return Ok(());
                }
                let popt: Option<&Identifier> = match p {
                    Some(pp) => Some(pp),
                    None => None,
                };
                let qopt: Option<&Identifier> = match q {
                    Some(qq) => Some(qq),
                    None => None,
                };
                match (popt, qopt) {
                    (Some(pp), Some(qq)) => {
                        if !pp.lt(qq) {
                            return Err(Error::IdentifierExhaustion);
                        }
                    },
                    _ => {},
                }
                let id = match alloc_id(popt, qopt, *dot) {
                    Ok(id) => id,
                    Err(e) => {
                        return Err(e);
                    },
                };
                proof {
                    match popt {
                        Some(pp) => {
                            assert((*p) is Some);
                            assert(ov(popt) == ovv(*p));
                        },
                        None => {
                            assert((*p) is None);
                            assert(ov(popt) == ovv(*p));
                        },
                    }
                    match qopt {
                        Some(qq) => {
                            assert((*q) is Some);
                            assert(ov(qopt) == ovv(*q));
                        },
                        None => {
                            assert((*q) is None);
                            assert(ov(qopt) == ovv(*q));
                        },
                    }
                    assert(Some(id@) == alloc_spec(ovv(*p), ovv(*q), *dot));
                }
                proof {
                    assert((*p) is Some ==> id_lt((*p).unwrap()@, id@));
                    assert((*q) is Some ==> id_lt(id@, (*q).unwrap()@));
                }
                let n = self.entries.len();
                let mut k: usize = 0;
                let mut stop = false;
                while k < n && !stop
                    invariant
                        self.wf(),
                        *op is Insert,
                        (*op)->Insert_clock == *clock,
                        (*op)->Insert_dot == *dot,
                        (*op)->Insert_value == *value,
                        (*op)->Insert_p == *p,
                        (*op)->Insert_q == *q,
                        clock.wf(),
                        clock@ != Map::<u64, u64>::empty(),
                        id_wf(id@),
                        (*p) is Some ==> id_lt((*p).unwrap()@, id@),
                        (*q) is Some ==> id_lt(id@, (*q).unwrap()@),
                        Some(id@) == alloc_spec(ovv(*p), ovv(*q), *dot),
                        n == self.entries@.len(),
                        k <= n,
                        forall|j: int| 0 <= j < k ==> id_lt((#[trigger] self.entries@[j]).0@, id@),
                        stop ==> k < n && !id_lt(self.entries@[k as int].0@, id@),
                    decreases n - k + (if stop { 0int } else { 1int }),
                {
                    if !self.entries[k].0.lt(&id) {
                        stop = true;
                    } else {
                        k += 1;
                    }
                }
                let ghost oldseq = self.seqv();
                if k < n && self.entries[k].0.same(&id) {
                    // the same op was already delivered: entries unchanged
                    self.clock.merge(clock);
                    proof {
                        assert(self.seqv() =~= oldseq);
                        assert(oldseq[k as int].0 == id@);
                        assert(has_id(oldseq, id@));
                        assert(alloc_spec(ovv(*p), ovv(*q), *dot) == Some(id@));
                    }
                    return Ok(());
                }
                proof {
                    // the found position keeps the entries strictly sorted
                    if k < n {
                        lemma_id_total(self.entries@[k as int].0@, id@);
                        assert(id_lt(id@, self.entries@[k as int].0@));
                    }
                    assert forall|j: int| k <= j < n implies id_lt(
                        id@,
                        (#[trigger] self.entries@[j]).0@,
                    ) by {
                        if j > k {
                            lemma_id_trans(id@, self.entries@[k as int].0@, self.entries@[j].0@);
                        }
                    }
                    if has_id(oldseq, id@) {
                        let i = choose|i: int| 0 <= i < oldseq.len() && (#[trigger] oldseq[i]).0
                            == id@;
                        assert(oldseq[i].0 == self.entries@[i].0@);
                        lemma_id_irrefl(id@);
                        assert(false);
                    }
                }
                let ghost oldentries = self.entries@;
                let v2 = value.dup();
                self.entries.insert(k, (id, *dot, v2));
                self.clock.merge(clock);
                proof {
                    let news = self.entries@;
                    assert(news == oldentries.insert(k as int, (
                        self.entries@[k as int].0,
                        *dot,
                        v2,
                    )));
                    let idv = news[k as int].0@;
                    assert forall|i: int, j: int| 0 <= i < j < news.len() implies id_lt(
                        (#[trigger] news[i]).0@,
                        (#[trigger] news[j]).0@,
                    ) by {
                        if j < k {
                            assert(news[i] == oldentries[i]);
                            assert(news[j] == oldentries[j]);
                        } else if i < k && j == k {
                            assert(news[i] == oldentries[i]);
                        } else if i < k && j > k {
                            assert(news[i] == oldentries[i]);
                            assert(news[j] == oldentries[j - 1]);
                        } else if i == k {
                            assert(news[j] == oldentries[j - 1]);
                        } else {
                            assert(news[i] == oldentries[i - 1]);
                            assert(news[j] == oldentries[j - 1]);
                        }
                    }
                    assert forall|i: int| 0 <= i < news.len() implies id_wf(
                        (#[trigger] news[i]).0@,
                    ) by {
                        if i < k {
                            assert(news[i] == oldentries[i]);
                        } else if i > k {
                            assert(news[i] == oldentries[i - 1]);
                        }
                    }
                    assert(self.seqv() =~= oldseq.insert(k as int, (idv, *dot, *value)));
                    assert(alloc_spec(ovv(*p), ovv(*q), *dot) == Some(idv));
                }
                Ok(())
            },
            Op::Delete { clock, id } => {
                proof {
                    assert(*op == (Op::<V>::Delete { clock: *clock, id: *id }));
                    assert((*clock).wf());
                }
                if clock.is_empty() {
                    // an op carrying an empty causal clock is a silent no-op
                    return Ok(());
                }
                let n = self.entries.len();
                let mut k: usize = 0;
                while k < n
                    invariant
                        *self == *old(self),
                        self.wf(),
                        clock.wf(),
                        clock@ != Map::<u64, u64>::empty(),
                        id@ == (*op)->Delete_id@,
                        *op is Delete,
                        (*op)->Delete_clock == *clock,
                        n == self.entries@.len(),
                        k <= n,
                        forall|j: int| 0 <= j < k ==> (#[trigger] self.entries@[j]).0@ != id@,
                    decreases n - k,
                {
                    if self.entries[k].0.same(id) {
                        let ghost oldseq = self.seqv();
                        let ghost oldentries = self.entries@;
                        self.entries.remove(k);
                        self.clock.merge(clock);
                        proof {
                            let news = self.entries@;
                            assert(news == oldentries.remove(k as int));
                            assert forall|i: int, j: int| 0 <= i < j < news.len() implies id_lt(
                                (#[trigger] news[i]).0@,
                                (#[trigger] news[j]).0@,
                            ) by {
                                assert(news[i] == if i < k {
                                    oldentries[i]
                                } else {
                                    oldentries[i + 1]
                                });
                                assert(news[j] == if j < k {
                                    oldentries[j]
                                } else {
                                    oldentries[j + 1]
                                });
                            }
                            assert forall|i: int| 0 <= i < news.len() implies id_wf(
                                (#[trigger] news[i]).0@,
                            ) by {
                                assert(news[i] == if i < k {
                                    oldentries[i]
                                } else {
                                    oldentries[i + 1]
                                });
                            }
                            assert(oldseq[k as int].0 == id@);
                            assert(has_id(oldseq, id@));
                            assert(self.seqv() =~= oldseq.remove(k as int));
                        }
                        return Ok(());
                    }
                    k += 1;
                }
                proof {
                    if has_id(self.seqv(), id@) {
                        let i = choose|i: int| 0 <= i < self.seqv().len() && (#[trigger] self.seqv()[i]).0 == id@;
                        assert(self.seqv()[i].0 == self.entries@[i].0@);
                        assert(false);
                    }
                }
                Err(Error::UnknownIdentifier)
            },
        }
    }
}

impl<V: crate::mvreg::Val> Default for LSeq<V> {
    /// The empty sequence.
    fn default() -> (r: Self)
        ensures
            r.wf(),
            r.seqv() == Seq::<(Seq<Level>, Dot, V)>::empty(),
            r.clockv() == Map::<u64, u64>::empty(),
    {
        LSeq::new()
    }
}

impl<V: crate::mvreg::Val> PartialEq for LSeq<V> {
    /// Sequence equality is per-identifier equality of entries together
    /// with their originating dots; the summary clocks are not compared.
    fn eq(&self, other: &Self) -> (r: bool) {
        let n1 = self.entries.len();
        let n2 = other.entries.len();
        if n1 != n2 {
            proof {
                assert(self.seqv().len() != other.seqv().len());
            }
            return false;
        }
        let mut i: usize = 0;
        while i < n1
            invariant
                n1 == self.entries@.len(),
                n2 == other.entries@.len(),
                n1 == n2,
                i <= n1,
                forall|j: int| 0 <= j < i ==> self.seqv()[j] == other.seqv()[j],
            decreases n1 - i,
        {
            proof {
                assert(self.seqv()[i as int] == (
                    self.entries@[i as int].0@,
                    self.entries@[i as int].1,
                    self.entries@[i as int].2,
                ));
                assert(other.seqv()[i as int] == (
                    other.entries@[i as int].0@,
                    other.entries@[i as int].1,
                    other.entries@[i as int].2,
                ));
            }
            let ids_match = self.entries[i].0.same(&other.entries[i].0);
            let dots_match = self.entries[i].1.actor == other.entries[i].1.actor
                && self.entries[i].1.counter == other.entries[i].1.counter;
            if !(ids_match && dots_match && self.entries[i].2.val_eq(&other.entries[i].2)) {
                return false;
            }
            i += 1;
        }
        proof {
            assert(self.seqv() =~= other.seqv());
        }
        true
    }
}

impl<V: crate::mvreg::Val> vstd::std_specs::cmp::PartialEqSpecImpl for LSeq<V> {
    open spec fn obeys_eq_spec() -> bool {
        true
    }

    open spec fn eq_spec(&self, other: &Self) -> bool {
        self.seqv() == other.seqv()
    }
}

/// Order invariance: the visible sequence is a function of the set of alive
/// entries alone.  Two well-formed replicas holding the same entries — in
/// whatever order their ops arrived — expose identical sequences.
pub proof fn lemma_same_entries_same_sequence<V>(a: LSeq<V>, b: LSeq<V>)
    requires
        a.wf(),
        b.wf(),
        forall|e: (Seq<Level>, Dot, V)| a.seqv().contains(e) <==> b.seqv().contains(e),
    ensures
        a.seqv() == b.seqv(),
{
    a.lemma_wf_view();
    b.lemma_wf_view();
    lemma_sorted_set_unique(a.seqv(), b.seqv());
}

proof fn lemma_sorted_set_unique<V>(s1: Seq<(Seq<Level>, Dot, V)>, s2: Seq<(Seq<Level>, Dot, V)>)
    requires
        forall|i: int, j: int|
            0 <= i < j < s1.len() ==> id_lt((#[trigger] s1[i]).0, (#[trigger] s1[j]).0),
        forall|i: int, j: int|
            0 <= i < j < s2.len() ==> id_lt((#[trigger] s2[i]).0, (#[trigger] s2[j]).0),
        forall|e: (Seq<Level>, Dot, V)| s1.contains(e) <==> s2.contains(e),
    ensures
        s1 == s2,
    decreases s1.len(),
{
    if s1.len() == 0 {
        if s2.len() > 0 {
            assert(s2.contains(s2[0]));
            assert(s1.contains(s2[0]));
            assert(false);
        }
        assert(s1 =~= s2);
    } else {
        assert(s1.contains(s1[0]));
        assert(s2.contains(s1[0]));
        assert(s2.len() > 0);
        // both heads are the unique minimum of the shared entry set
        let i = choose|i: int| 0 <= i < s2.len() && s2[i] == s1[0];
        assert(s1[0] == s2[0]) by {
            if i != 0 {
                assert(id_lt(s2[0].0, s2[i].0));
                assert(s1.contains(s2[0]));
                let j = choose|j: int| 0 <= j < s1.len() && s1[j] == s2[0];
                if j == 0 {
                    lemma_id_irrefl(s1[0].0);
                    assert(false);
                } else {
                    assert(id_lt(s1[0].0, s1[j].0));
                    lemma_id_trans(s1[0].0, s2[0].0, s2[i].0);
                    lemma_id_irrefl(s1[0].0);
                    assert(false);
                }
            }
        }
        let t1 = s1.skip(1);
        let t2 = s2.skip(1);
        assert forall|i2: int, j2: int| 0 <= i2 < j2 < t1.len() implies id_lt(
            (#[trigger] t1[i2]).0,
            (#[trigger] t1[j2]).0,
        ) by {
            assert(t1[i2] == s1[i2 + 1]);
            assert(t1[j2] == s1[j2 + 1]);
        }
        assert forall|i2: int, j2: int| 0 <= i2 < j2 < t2.len() implies id_lt(
            (#[trigger] t2[i2]).0,
            (#[trigger] t2[j2]).0,
        ) by {
            assert(t2[i2] == s2[i2 + 1]);
            assert(t2[j2] == s2[j2 + 1]);
        }
        assert forall|e: (Seq<Level>, Dot, V)| t1.contains(e) <==> t2.contains(e) by {
            if t1.contains(e) {
                let k = choose|k: int| 0 <= k < t1.len() && t1[k] == e;
                assert(s1[k + 1] == e);
                assert(s1.contains(e));
                assert(s2.contains(e));
                let m = choose|m: int| 0 <= m < s2.len() && s2[m] == e;
                if m == 0 {
                    assert(e == s1[0]);
                    assert(id_lt(s1[0].0, s1[k + 1].0));
                    lemma_id_irrefl(s1[0].0);
                    assert(false);
                }
                assert(t2[m - 1] == e);
                assert(t2.contains(e));
            }
            if t2.contains(e) {
                let k = choose|k: int| 0 <= k < t2.len() && t2[k] == e;
                assert(s2[k + 1] == e);
                assert(s2.contains(e));
                assert(s1.contains(e));
                let m = choose|m: int| 0 <= m < s1.len() && s1[m] == e;
                if m == 0 {
                    assert(e == s2[0]);
                    assert(id_lt(s2[0].0, s2[k + 1].0));
                    lemma_id_irrefl(s2[0].0);
                    assert(false);
                }
                assert(t1[m - 1] == e);
                assert(t1.contains(e));
            }
        }
        lemma_sorted_set_unique(t1, t2);
        assert forall|k: int| 0 <= k < s1.len() implies s1[k] == s2[k] by {
            if k > 0 {
                assert(t1[k - 1] == s1[k]);
                assert(t2[k - 1] == s2[k]);
            }
        }
        assert(s1 =~= s2);
    }
}

/// The collection of entries a sequence state holds.
pub open spec fn entry_set<V>(s: Seq<(Seq<Level>, Dot, V)>) -> Set<(Seq<Level>, Dot, V)> {
    Set::new(|e: (Seq<Level>, Dot, V)| s.contains(e))
}

/// The effect of a delivered insert on the entry collection: add the entry
/// unless its identifier is already alive.
pub open spec fn ins_entry<V>(s: Set<(Seq<Level>, Dot, V)>, e: (Seq<Level>, Dot, V)) -> Set<
    (Seq<Level>, Dot, V),
> {
    if exists|f: (Seq<Level>, Dot, V)| #[trigger] s.contains(f) && f.0 == e.0 {
        s
    } else {
        s.insert(e)
    }
}

/// The effect of a delivered delete on the entry collection: drop the entry
/// at `id` outright.
pub open spec fn del_entry<V>(s: Set<(Seq<Level>, Dot, V)>, id: Seq<Level>) -> Set<
    (Seq<Level>, Dot, V),
> {
    s.filter(|f: (Seq<Level>, Dot, V)| f.0 != id)
}

/// Delivering the same insert twice leaves the entries of the first
/// delivery.
pub proof fn lemma_ins_entry_idempotent<V>(s: Set<(Seq<Level>, Dot, V)>, e: (Seq<Level>, Dot, V))
    ensures
        ins_entry(ins_entry(s, e), e) == ins_entry(s, e),
{
    if exists|f: (Seq<Level>, Dot, V)| #[trigger] s.contains(f) && f.0 == e.0 {
    } else {
        assert(s.insert(e).contains(e));
    }
}

/// Two inserts whose identifiers cannot clash with different entries may be
/// delivered in either order.
pub proof fn lemma_ins_entry_commutative<V>(
    s: Set<(Seq<Level>, Dot, V)>,
    e1: (Seq<Level>, Dot, V),
    e2: (Seq<Level>, Dot, V),
)
    requires
        e1.0 == e2.0 ==> e1 == e2,
    ensures
        ins_entry(ins_entry(s, e1), e2) == ins_entry(ins_entry(s, e2), e1),
{
    if e1 == e2 {
        lemma_ins_entry_idempotent(s, e1);
    } else {
        let p1 = exists|f: (Seq<Level>, Dot, V)| #[trigger] s.contains(f) && f.0 == e1.0;
        let p2 = exists|f: (Seq<Level>, Dot, V)| #[trigger] s.contains(f) && f.0 == e2.0;
        let s1 = ins_entry(s, e1);
        let s2 = ins_entry(s, e2);
        assert((exists|f: (Seq<Level>, Dot, V)| #[trigger] s1.contains(f) && f.0 == e2.0)
            == p2) by {
            if exists|f: (Seq<Level>, Dot, V)| #[trigger] s1.contains(f) && f.0 == e2.0 {
                let f = choose|f: (Seq<Level>, Dot, V)| #[trigger] s1.contains(f) && f.0 == e2.0;
                assert(f != e1);
                assert(s.contains(f));
            }
            if p2 {
                let f = choose|f: (Seq<Level>, Dot, V)| #[trigger] s.contains(f) && f.0 == e2.0;
                assert(s1.contains(f));
            }
        }
        assert((exists|f: (Seq<Level>, Dot, V)| #[trigger] s2.contains(f) && f.0 == e1.0)
            == p1) by {
            if exists|f: (Seq<Level>, Dot, V)| #[trigger] s2.contains(f) && f.0 == e1.0 {
                let f = choose|f: (Seq<Level>, Dot, V)| #[trigger] s2.contains(f) && f.0 == e1.0;
                assert(f != e2);
                assert(s.contains(f));
            }
            if p1 {
                let f = choose|f: (Seq<Level>, Dot, V)| #[trigger] s.contains(f) && f.0 == e1.0;
                assert(s2.contains(f));
            }
        }
        assert(ins_entry(s1, e2) =~= ins_entry(s2, e1));
    }
}

/// An insert and a delete that touch different identifiers may be delivered
/// in either order.  A delete aimed at the insert's own identifier is only
/// causally ready after it, so this covers every causal delivery.
pub proof fn lemma_ins_del_commutative<V>(
    s: Set<(Seq<Level>, Dot, V)>,
    e: (Seq<Level>, Dot, V),
    id: Seq<Level>,
)
    requires
        e.0 != id,
    ensures
        del_entry(ins_entry(s, e), id) == ins_entry(del_entry(s, id), e),
{
    let d = del_entry(s, id);
    assert((exists|f: (Seq<Level>, Dot, V)| #[trigger] d.contains(f) && f.0 == e.0) == (exists|
        f: (Seq<Level>, Dot, V),
    | #[trigger] s.contains(f) && f.0 == e.0)) by {
        if exists|f: (Seq<Level>, Dot, V)| #[trigger] s.contains(f) && f.0 == e.0 {
            let f = choose|f: (Seq<Level>, Dot, V)| #[trigger] s.contains(f) && f.0 == e.0;
            assert(d.contains(f));
        }
        if exists|f: (Seq<Level>, Dot, V)| #[trigger] d.contains(f) && f.0 == e.0 {
            let f = choose|f: (Seq<Level>, Dot, V)| #[trigger] d.contains(f) && f.0 == e.0;
            assert(s.contains(f));
        }
    }
    assert(del_entry(ins_entry(s, e), id) =~= ins_entry(del_entry(s, id), e));
}

/// Two deletes may be delivered in either order.
pub proof fn lemma_del_entry_commutative<V>(
    s: Set<(Seq<Level>, Dot, V)>,
    id1: Seq<Level>,
    id2: Seq<Level>,
)
    ensures
        del_entry(del_entry(s, id1), id2) == del_entry(del_entry(s, id2), id1),
{
    assert(del_entry(del_entry(s, id1), id2) =~= del_entry(del_entry(s, id2), id1));
}

/// A delete is idempotent on the entry collection.
pub proof fn lemma_del_entry_idempotent<V>(s: Set<(Seq<Level>, Dot, V)>, id: Seq<Level>)
    ensures
        del_entry(del_entry(s, id), id) == del_entry(s, id),
{
    assert(del_entry(del_entry(s, id), id) =~= del_entry(s, id));
}

/// Inserting into the visible sequence at any position adds exactly that
/// entry to the entry collection.
pub proof fn lemma_seq_insert_entry_set<V>(s: Seq<(Seq<Level>, Dot, V)>, k: int, x: (
    Seq<Level>,
    Dot,
    V,
))
    requires
        0 <= k <= s.len(),
    ensures
        entry_set(s.insert(k, x)) == entry_set(s).insert(x),
{
    let t = s.insert(k, x);
    assert forall|e: (Seq<Level>, Dot, V)| #[trigger] entry_set(t).contains(e) implies entry_set(
        s,
    ).insert(x).contains(e) by {
        let i = choose|i: int| 0 <= i < t.len() && t[i] == e;
        if i < k {
            assert(s[i] == e);
            assert(s.contains(e));
        } else if i == k {
            assert(e == x);
        } else {
            assert(s[i - 1] == e);
            assert(s.contains(e));
        }
    }
    assert forall|e: (Seq<Level>, Dot, V)| #[trigger] entry_set(s).insert(x).contains(e) implies
        entry_set(t).contains(e) by {
        if e == x {
            assert(t[k] == x);
            assert(t.contains(e));
        } else {
            let i = choose|i: int| 0 <= i < s.len() && s[i] == e;
            if i < k {
                assert(t[i] == e);
            } else {
                assert(t[i + 1] == e);
            }
            assert(t.contains(e));
        }
    }
    assert(entry_set(t) =~= entry_set(s).insert(x));
}

/// Removing the entry at one position of a duplicate-free sequence drops
/// exactly its identifier from the entry collection.
pub proof fn lemma_seq_remove_entry_set<V>(s: Seq<(Seq<Level>, Dot, V)>, k: int)
    requires
        0 <= k < s.len(),
        forall|i: int, j: int|
            0 <= i < j < s.len() ==> (#[trigger] s[i]).0 != (#[trigger] s[j]).0,
    ensures
        entry_set(s.remove(k)) == del_entry(entry_set(s), s[k].0),
{
    let t = s.remove(k);
    assert forall|e: (Seq<Level>, Dot, V)| #[trigger] entry_set(t).contains(e) implies del_entry(
        entry_set(s),
        s[k].0,
    ).contains(e) by {
        let i = choose|i: int| 0 <= i < t.len() && t[i] == e;
        if i < k {
            assert(s[i] == e);
            assert(s.contains(e));
            assert(e.0 != s[k].0);
        } else {
            assert(s[i + 1] == e);
            assert(s.contains(e));
            assert(e.0 != s[k].0);
        }
    }
    assert forall|e: (Seq<Level>, Dot, V)| #[trigger] del_entry(entry_set(s), s[k].0).contains(
        e,
    ) implies entry_set(t).contains(e) by {
        let i = choose|i: int| 0 <= i < s.len() && s[i] == e;
        assert(i != k);
        if i < k {
            assert(t[i] == e);
        } else {
            assert(t[i - 1] == e);
        }
        assert(t.contains(e));
    }
    assert(entry_set(t) =~= del_entry(entry_set(s), s[k].0));
}


} // verus!
