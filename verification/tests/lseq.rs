use crdts::lseq::{alloc_id, Error, Identifier, LSeq, Op};
use crdts::vclock::{Dot, VClock};

#[test]
fn insert_between_neighbours_builds_the_expected_order() {
    let mut seq: LSeq<char> = LSeq::new();

    let ctx_a = seq.read().derive_add_ctx(1);
    let op_a = seq.insert_between('a', None, None, ctx_a);
    seq.apply(&op_a).unwrap();
    assert_eq!(seq.read().val, vec!['a']);

    let id_a = seq.identifier_at(0);
    let ctx_c = seq.read().derive_add_ctx(1);
    let op_c = seq.insert_between('c', Some(id_a), None, ctx_c);
    seq.apply(&op_c).unwrap();
    assert_eq!(seq.read().val, vec!['a', 'c']);

    let id_a = seq.identifier_at(0);
    let id_c = seq.identifier_at(1);
    let ctx_b = seq.read().derive_add_ctx(1);
    let op_b = seq.insert_between('b', Some(id_a), Some(id_c), ctx_b);
    seq.apply(&op_b).unwrap();
    assert_eq!(seq.read().val, vec!['a', 'b', 'c']);
}

#[test]
fn concurrent_inserts_converge_after_exchange() {
    let mut r1: LSeq<char> = LSeq::new();
    let mut r2: LSeq<char> = LSeq::new();

    // each replica inserts its own value at the front, then they exchange
    let ctx_x = r1.read().derive_add_ctx(1);
    let op_x = r1.insert_between('x', None, None, ctx_x);
    r1.apply(&op_x).unwrap();

    let ctx_y = r2.read().derive_add_ctx(2);
    let op_y = r2.insert_between('y', None, None, ctx_y);
    r2.apply(&op_y).unwrap();

    r1.apply(&op_y).unwrap();
    r2.apply(&op_x).unwrap();

    assert_eq!(r1.read().val, r2.read().val);
    assert!(r1 == r2);

    // and causally ordered follow-ups on both sides still converge
    let id0 = r1.identifier_at(0);
    let ctx_z = r1.read().derive_add_ctx(1);
    let op_z = r1.insert_between('z', None, Some(id0), ctx_z);
    r1.apply(&op_z).unwrap();
    r2.apply(&op_z).unwrap();
    assert_eq!(r1.read().val, r2.read().val);
    assert!(r1 == r2);
}

#[test]
fn delete_then_reinsert_uses_a_fresh_identifier() {
    let mut seq: LSeq<char> = LSeq::new();

    let ctx1 = seq.read().derive_add_ctx(1);
    let op1 = seq.insert_between('a', None, None, ctx1);
    seq.apply(&op1).unwrap();
    let first_id = seq.identifier_at(0);

    let del_ctx = seq.read().derive_add_ctx(1);
    let del = seq.delete(seq.identifier_at(0), del_ctx);
    seq.apply(&del).unwrap();
    assert_eq!(seq.read().val, Vec::<char>::new());

    let ctx2 = seq.read().derive_add_ctx(1);
    let op2 = seq.insert_between('a', None, None, ctx2);
    seq.apply(&op2).unwrap();
    assert_eq!(seq.read().val, vec!['a']);

    let second_id = seq.identifier_at(0);
    assert!(first_id.lt(&second_id) || second_id.lt(&first_id));
}

#[test]
fn delete_of_an_unknown_identifier_is_reported() {
    let mut seq: LSeq<u8> = LSeq::new();
    let ctx = seq.read().derive_add_ctx(1);
    let op = seq.insert_between(1, None, None, ctx);
    seq.apply(&op).unwrap();
    let stale = seq.identifier_at(0);

    let del_ctx = seq.read().derive_add_ctx(1);
    let del = seq.delete(seq.identifier_at(0), del_ctx);
    seq.apply(&del).unwrap();

    let del_ctx2 = seq.read().derive_add_ctx(1);
    let del2 = seq.delete(stale, del_ctx2);
    assert_eq!(seq.apply(&del2), Err(Error::UnknownIdentifier));
}

#[test]
fn inverted_neighbours_are_reported_as_exhaustion() {
    let mut seq: LSeq<u8> = LSeq::new();
    let ctx1 = seq.read().derive_add_ctx(1);
    let op1 = seq.insert_between(1, None, None, ctx1);
    seq.apply(&op1).unwrap();
    let ctx2 = seq.read().derive_add_ctx(1);
    let op2 = seq.insert_between(2, Some(seq.identifier_at(0)), None, ctx2);
    seq.apply(&op2).unwrap();

    let lo = seq.identifier_at(0);
    let hi = seq.identifier_at(1);
    let ctx3 = seq.read().derive_add_ctx(1);
    let bad = seq.insert_between(3, Some(hi), Some(lo), ctx3);
    assert_eq!(seq.apply(&bad), Err(Error::IdentifierExhaustion));
    assert_eq!(seq.read().val, vec![1, 2]);
}

#[test]
fn an_insert_with_an_empty_clock_is_a_no_op() {
    let mut seq: LSeq<u8> = LSeq::new();
    let op = Op::Insert {
        clock: VClock::new(),
        dot: crdts::vclock::Dot {
            actor: 1,
            counter: 0,
        },
        value: 7,
        p: None,
        q: None,
    };
    assert_eq!(seq.apply(&op), Ok(()));
    assert_eq!(seq.read().val, Vec::<u8>::new());
}

#[test]
fn allocation_is_dense_between_any_two_neighbours() {
    // repeatedly insert at the front: every fresh identifier must sit
    // strictly between the sentinels and the previous front entry
    let first = alloc_id(None, None, Dot { actor: 1, counter: 1 }).unwrap();
    let mut front: Identifier = first;
    for actor in 2..40u64 {
        let fresh = alloc_id(None, Some(&front), Dot { actor, counter: 1 }).unwrap();
        assert!(fresh.lt(&front));
        front = fresh;
    }
    // and in the interior of a pair of adjacent identifiers
    let lo = alloc_id(None, None, Dot { actor: 1, counter: 1 }).unwrap();
    let hi = alloc_id(Some(&lo), None, Dot { actor: 1, counter: 2 }).unwrap();
    let mut a = lo;
    let b = hi;
    for actor in 1..40u64 {
        let mid = alloc_id(Some(&a), Some(&b), Dot { actor, counter: 3 }).unwrap();
        assert!(a.lt(&mid));
        assert!(mid.lt(&b));
        a = mid;
    }
}

#[test]
fn allocation_is_deterministic_across_replicas() {
    let a = alloc_id(None, None, Dot { actor: 3, counter: 8 }).unwrap();
    let b = alloc_id(None, None, Dot { actor: 3, counter: 8 }).unwrap();
    assert!(!a.lt(&b) && !b.lt(&a));
    // a different event of the same actor gets a different identifier
    let c = alloc_id(None, None, Dot { actor: 3, counter: 9 }).unwrap();
    assert!(a.lt(&c) || c.lt(&a));
}

#[test]
fn order_of_delivery_does_not_change_the_sequence() {
    // two replicas applying the same causally-ready op set in different
    // orders expose identical value sequences
    let mut author: LSeq<u8> = LSeq::new();
    let mut ops = Vec::new();
    for v in 0..5u8 {
        let ctx = author.read().derive_add_ctx(1);
        let op = author.insert_between(v, None, None, ctx);
        author.apply(&op).unwrap();
        ops.push(op);
    }
    // the ops carry distinct neighbour observations, so they are
    // insert-order independent on delivery
    let mut r1: LSeq<u8> = LSeq::new();
    for op in ops.iter() {
        r1.apply(op).unwrap();
    }
    let mut r2: LSeq<u8> = LSeq::new();
    for op in ops.iter().rev() {
        r2.apply(op).unwrap();
    }
    assert_eq!(r1.read().val, r2.read().val);
    assert!(r1 == r2);
    assert_eq!(r1.read().val, author.read().val);
}

#[test]
fn forget_empties_only_the_summary_clock() {
    let mut seq: LSeq<u8> = LSeq::new();
    let ctx = seq.read().derive_add_ctx(4);
    let op = seq.insert_between(9, None, None, ctx);
    seq.apply(&op).unwrap();

    let snapshot_vals = seq.read().val;

    // forgetting the empty clock changes nothing at all
    seq.forget(&VClock::new());
    assert_eq!(seq.read().val, snapshot_vals);

    // forgetting everything observed clears the clock but keeps the entries
    let full = seq.read().rm_clock;
    seq.forget(&full);
    assert_eq!(seq.read().val, snapshot_vals);
    assert!(seq.read().add_clock == VClock::new());
}

#[test]
fn lseq_apply_is_idempotent() {
    let mut seq: LSeq<u8> = LSeq::new();
    let ctx = seq.read().derive_add_ctx(1);
    let op = seq.insert_between(5, None, None, ctx);
    seq.apply(&op).unwrap();
    let snapshot_vals = seq.read().val;
    // a duplicate delivery of the same insert leaves the entries unchanged
    seq.apply(&op).unwrap();
    assert_eq!(seq.read().val, snapshot_vals);
    assert_eq!(seq.len(), 1);

    // a duplicate delete is surfaced and leaves the state unchanged
    let del_ctx = seq.read().derive_add_ctx(1);
    let del = seq.delete(seq.identifier_at(0), del_ctx);
    seq.apply(&del).unwrap();
    assert_eq!(seq.apply(&del), Err(Error::UnknownIdentifier));
    assert_eq!(seq.read().val, Vec::<u8>::new());
}

#[test]
fn a_delete_with_an_empty_clock_is_a_no_op() {
    let mut seq: LSeq<u8> = LSeq::new();
    let ctx = seq.read().derive_add_ctx(1);
    let op = seq.insert_between(8, None, None, ctx);
    seq.apply(&op).unwrap();
    let id = seq.identifier_at(0);

    let del = Op::Delete {
        clock: VClock::new(),
        id,
    };
    assert_eq!(seq.apply(&del), Ok(()));
    assert_eq!(seq.read().val, vec![8]);
}
