use crdts::ctx::ReadCtx;
use crdts::vclock::{ClockOrdering, Dot, VClock};

#[test]
fn witness_records_the_maximum_counter_per_actor() {
    let mut c = VClock::new();
    assert!(c.is_empty());
    c.witness(Dot {
        actor: 1,
        counter: 3,
    });
    c.witness(Dot {
        actor: 1,
        counter: 2,
    });
    c.witness(Dot {
        actor: 2,
        counter: 1,
    });
    assert_eq!(c.get(1), 3);
    assert_eq!(c.get(2), 1);
    assert_eq!(c.get(3), 0);
    assert_eq!(c.len(), 2);
}

#[test]
fn witness_is_idempotent() {
    let mut a = VClock::new();
    a.witness(Dot {
        actor: 8,
        counter: 5,
    });
    let b = a.clone();
    a.witness(Dot {
        actor: 8,
        counter: 5,
    });
    assert!(a == b);
}

#[test]
fn merge_takes_the_pointwise_maximum() {
    let mut a = VClock::new();
    a.witness(Dot {
        actor: 1,
        counter: 4,
    });
    a.witness(Dot {
        actor: 2,
        counter: 1,
    });
    let mut b = VClock::new();
    b.witness(Dot {
        actor: 1,
        counter: 2,
    });
    b.witness(Dot {
        actor: 3,
        counter: 9,
    });
    a.merge(&b);
    assert_eq!(a.get(1), 4);
    assert_eq!(a.get(2), 1);
    assert_eq!(a.get(3), 9);
}

#[test]
fn subtract_drops_only_the_covered_components() {
    let mut a = VClock::new();
    a.witness(Dot {
        actor: 1,
        counter: 4,
    });
    a.witness(Dot {
        actor: 2,
        counter: 1,
    });
    let mut b = VClock::new();
    b.witness(Dot {
        actor: 1,
        counter: 9,
    });
    a.subtract(&b);
    assert_eq!(a.get(1), 0);
    assert_eq!(a.get(2), 1);
}

#[test]
fn comparison_distinguishes_all_four_outcomes() {
    let mut a = VClock::new();
    a.witness(Dot {
        actor: 1,
        counter: 1,
    });
    let mut b = a.clone();
    assert_eq!(a.compare(&b), ClockOrdering::Equal);
    b.witness(Dot {
        actor: 2,
        counter: 1,
    });
    assert_eq!(a.compare(&b), ClockOrdering::Less);
    assert_eq!(b.compare(&a), ClockOrdering::Greater);
    let mut c = VClock::new();
    c.witness(Dot {
        actor: 3,
        counter: 1,
    });
    assert_eq!(a.compare(&c), ClockOrdering::Concurrent);
}

#[test]
fn clock_merge_is_commutative_associative_idempotent() {
    let mut a = VClock::new();
    a.witness(Dot {
        actor: 1,
        counter: 2,
    });
    let mut b = VClock::new();
    b.witness(Dot {
        actor: 2,
        counter: 3,
    });
    let mut ab = a.clone();
    ab.merge(&b);
    let mut ba = b.clone();
    ba.merge(&a);
    assert!(ab == ba);
    let mut aa = a.clone();
    aa.merge(&a);
    assert!(aa == a);
}

#[test]
fn derive_add_ctx_bumps_exactly_the_chosen_actor() {
    let mut base = VClock::new();
    base.witness(Dot {
        actor: 7,
        counter: 2,
    });
    let read_ctx = ReadCtx {
        add_clock: base.clone(),
        rm_clock: base.clone(),
        val: (),
    };
    let add_ctx = read_ctx.derive_add_ctx(7);
    assert_eq!(add_ctx.clock.get(7), 3);
    assert_eq!(
        add_ctx.dot,
        Dot {
            actor: 7,
            counter: 3
        }
    );
    let read_ctx2 = ReadCtx {
        add_clock: base.clone(),
        rm_clock: base,
        val: (),
    };
    let fresh = read_ctx2.derive_add_ctx(9);
    assert_eq!(fresh.clock.get(9), 1);
    assert_eq!(fresh.clock.get(7), 2);
}

#[test]
fn dot_order_is_lexicographic() {
    let d1 = Dot {
        actor: 1,
        counter: 9,
    };
    let d2 = Dot {
        actor: 2,
        counter: 1,
    };
    assert!(d1.lt(&d2));
    assert!(!d2.lt(&d1));
    assert!(d1.lt(&d1.inc()));
    assert_eq!(
        d1.inc(),
        Dot {
            actor: 1,
            counter: 10
        }
    );
}
