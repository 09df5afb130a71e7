use crdts::mvreg::{MVReg, Op};
use crdts::vclock::{Dot, VClock};

fn clock_of(dots: &[(u64, u64)]) -> VClock {
    let mut c = VClock::new();
    for (actor, counter) in dots {
        c.witness(Dot {
            actor: *actor,
            counter: *counter,
        });
    }
    c
}

#[test]
fn test_apply() {
    let mut reg: MVReg<u8> = MVReg::new();
    let clock = clock_of(&[(2, 1)]);
    reg.apply(&Op::Put {
        clock: clock.clone(),
        val: 71,
    });
    let read_ctx = reg.read();
    assert!(read_ctx.val == vec![71] && read_ctx.add_clock == clock);
}

#[test]
fn test_set_should_not_mutate_reg() {
    let reg: MVReg<u8> = MVReg::new();
    let ctx = reg.read().derive_add_ctx(1);
    let op = reg.set(32, ctx);
    assert!(reg == MVReg::new());
    let mut reg = reg;
    reg.apply(&op);

    let read_ctx = reg.read();
    assert_eq!(read_ctx.val, vec![32]);
    assert!(read_ctx.add_clock == clock_of(&[(1, 1)]));
}

#[test]
fn test_concurrent_update_with_same_value_dont_collapse_on_merge() {
    // this is important to prevent because it breaks commutativity
    let mut r1: MVReg<u8> = MVReg::new();
    let mut r2: MVReg<u8> = MVReg::new();

    let ctx_4 = r1.read().derive_add_ctx(4);
    let ctx_7 = r2.read().derive_add_ctx(7);

    let op1 = r1.set(23, ctx_4);
    let op2 = r2.set(23, ctx_7);
    r1.apply(&op1);
    r2.apply(&op2);

    r1.merge(&r2);

    let read_ctx = r1.read();
    assert_eq!(read_ctx.val, vec![23, 23]);
    assert!(read_ctx.add_clock == clock_of(&[(4, 1), (7, 1)]));
}

#[test]
fn test_concurrent_update_with_same_value_dont_collapse_on_apply() {
    // this is important to prevent because it breaks commutativity
    let mut r1: MVReg<u8> = MVReg::new();
    let r2: MVReg<u8> = MVReg::new();

    let ctx_4 = r1.read().derive_add_ctx(4);
    let ctx_7 = r2.read().derive_add_ctx(7);

    let op1 = r1.set(23, ctx_4);
    r1.apply(&op1);
    let op2 = r2.set(23, ctx_7);
    r1.apply(&op2);

    let read_ctx = r1.read();
    assert_eq!(read_ctx.val, vec![23, 23]);
    assert!(read_ctx.add_clock == clock_of(&[(4, 1), (7, 1)]));
}

#[test]
fn test_multi_val() {
    let mut r1: MVReg<u8> = MVReg::new();
    let mut r2: MVReg<u8> = MVReg::new();

    let ctx_1 = r1.read().derive_add_ctx(1);
    let ctx_2 = r2.read().derive_add_ctx(2);

    let op1 = r1.set(32, ctx_1);
    let op2 = r2.set(82, ctx_2);

    r1.apply(&op1);
    r2.apply(&op2);

    r1.merge(&r2);
    let read_ctx = r1.read();

    assert!(read_ctx.val == vec![32, 82] || read_ctx.val == vec![82, 32]);
}

#[test]
fn test_op_commute_quickcheck1() {
    let mut reg1: MVReg<u8> = MVReg::new();
    let mut reg2: MVReg<u8> = MVReg::new();

    let op1 = Op::Put {
        clock: clock_of(&[(1, 1)]),
        val: 1,
    };
    let op2 = Op::Put {
        clock: clock_of(&[(2, 1)]),
        val: 2,
    };

    reg2.apply(&op2);
    reg2.apply(&op1);
    reg1.apply(&op1);
    reg1.apply(&op2);

    assert!(reg1 == reg2);
}

#[test]
fn causal_overwrite_leaves_only_the_later_value() {
    let mut r1: MVReg<u8> = MVReg::new();
    let op1 = r1.set(1, r1.read().derive_add_ctx(1));
    r1.apply(&op1);
    let op2 = r1.set(2, r1.read().derive_add_ctx(1));
    r1.apply(&op2);
    assert_eq!(r1.read().val, vec![2]);
}

#[test]
fn concurrent_distinct_values_are_both_kept() {
    let mut r1: MVReg<char> = MVReg::new();
    let mut r2: MVReg<char> = MVReg::new();
    let op1 = r1.set('b', r1.read().derive_add_ctx(10));
    r1.apply(&op1);
    let op2 = r2.set('a', r2.read().derive_add_ctx(11));
    r2.apply(&op2);
    r1.apply(&op2);
    let read_ctx = r1.read();
    assert!(read_ctx.val == vec!['b', 'a'] || read_ctx.val == vec!['a', 'b']);
    assert!(read_ctx.add_clock == clock_of(&[(10, 1), (11, 1)]));
}

#[test]
fn empty_clock_op_is_a_no_op() {
    let mut reg: MVReg<u8> = MVReg::new();
    let op = reg.set(5, reg.read().derive_add_ctx(1));
    reg.apply(&op);
    let snapshot = reg.clone();
    reg.apply(&Op::Put {
        clock: VClock::new(),
        val: 9,
    });
    assert!(reg == snapshot);
}

#[test]
fn apply_is_idempotent() {
    let mut reg: MVReg<u8> = MVReg::new();
    let op = reg.set(7, reg.read().derive_add_ctx(3));
    reg.apply(&op);
    let snapshot = reg.clone();
    reg.apply(&op);
    assert!(reg == snapshot);
}

#[test]
fn apply_commutes_over_three_ops() {
    let ops = vec![
        Op::Put {
            clock: clock_of(&[(1, 1)]),
            val: 10,
        },
        Op::Put {
            clock: clock_of(&[(2, 1)]),
            val: 20,
        },
        Op::Put {
            clock: clock_of(&[(1, 1), (2, 1), (3, 1)]),
            val: 30,
        },
    ];
    let orders: Vec<Vec<usize>> = vec![
        vec![0, 1, 2],
        vec![0, 2, 1],
        vec![1, 0, 2],
        vec![1, 2, 0],
        vec![2, 0, 1],
        vec![2, 1, 0],
    ];
    let mut reference: MVReg<u8> = MVReg::new();
    for i in &orders[0] {
        reference.apply(&ops[*i]);
    }
    for order in &orders[1..] {
        let mut reg: MVReg<u8> = MVReg::new();
        for i in order {
            reg.apply(&ops[*i]);
        }
        assert!(reg == reference);
    }
}

#[test]
fn merge_is_idempotent() {
    let mut r: MVReg<u8> = MVReg::new();
    let op = r.set(44, r.read().derive_add_ctx(9));
    r.apply(&op);
    let snapshot = r.clone();
    r.merge(&snapshot);
    assert!(r == snapshot);
}

#[test]
fn merge_is_commutative() {
    let mut r1: MVReg<u8> = MVReg::new();
    let mut r2: MVReg<u8> = MVReg::new();
    let op1 = r1.set(1, r1.read().derive_add_ctx(1));
    r1.apply(&op1);
    let op2 = r2.set(2, r2.read().derive_add_ctx(2));
    r2.apply(&op2);
    let mut a = r1.clone();
    a.merge(&r2);
    let mut b = r2.clone();
    b.merge(&r1);
    assert!(a == b);
}

#[test]
fn merge_is_associative() {
    let mut r1: MVReg<u8> = MVReg::new();
    let mut r2: MVReg<u8> = MVReg::new();
    let mut r3: MVReg<u8> = MVReg::new();
    let op1 = r1.set(1, r1.read().derive_add_ctx(1));
    r1.apply(&op1);
    let op2 = r2.set(2, r2.read().derive_add_ctx(2));
    r2.apply(&op2);
    let op3 = r3.set(3, r3.read().derive_add_ctx(3));
    r3.apply(&op3);

    let mut left = r1.clone();
    left.merge(&r2);
    left.merge(&r3);

    let mut right23 = r2.clone();
    right23.merge(&r3);
    let mut right = r1.clone();
    right.merge(&right23);

    assert!(left == right);
}

#[test]
fn applying_an_op_equals_merging_its_singleton_state() {
    let mut r: MVReg<u8> = MVReg::new();
    let op0 = r.set(1, r.read().derive_add_ctx(1));
    r.apply(&op0);
    let op = r.set(2, r.read().derive_add_ctx(2));

    let mut applied = r.clone();
    applied.apply(&op);

    let mut singleton: MVReg<u8> = MVReg::new();
    singleton.apply(&op);
    let mut merged = r.clone();
    merged.merge(&singleton);

    assert!(applied == merged);
}

#[test]
fn truncate_by_the_empty_clock_changes_nothing() {
    let mut r: MVReg<u8> = MVReg::new();
    let op = r.set(3, r.read().derive_add_ctx(5));
    r.apply(&op);
    let snapshot = r.clone();
    r.truncate(&VClock::new());
    assert!(r == snapshot);
}

#[test]
fn truncate_by_the_full_clock_empties_the_register() {
    let mut r: MVReg<u8> = MVReg::new();
    let op1 = r.set(3, r.read().derive_add_ctx(5));
    r.apply(&op1);
    let op2 = r.set(4, r.read().derive_add_ctx(6));
    r.apply(&op2);
    let full = r.read().rm_clock;
    r.truncate(&full);
    assert!(r == MVReg::new());
}
