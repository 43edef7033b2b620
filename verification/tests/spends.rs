use rbitcoin_store::error::StoreError;
use rbitcoin_store::point_table::{for_each_spender_create, put_spend_on_create, SpenderMeta};
use rbitcoin_store::primitives::Fk;
use rbitcoin_store::spend_annotate_uring::{
    decide_annotate, known_write_done, put_spend_batch_by_abs_meta_known, AnnotateOp, KnownDone,
    RmwAction, RmwMachine, MULTI_SPENDER, NOT_SUPPORTED,
};
use rbitcoin_store::spender_table::SpenderTable;

#[test]
fn append_get_chain() {
    let mut t = SpenderTable::create();
    let a = t.append(Fk(10), Fk::null()).unwrap();
    let b = t.append(Fk(11), a).unwrap();
    assert_eq!(t.get(a).unwrap(), (Fk(10), Fk::null()));
    assert_eq!(t.get(b).unwrap(), (Fk(11), a));
}

#[test]
fn spender_table_errors_and_reopen() {
    let mut t = SpenderTable::create();
    assert_eq!(
        t.append(Fk::null(), Fk::null()),
        Err(StoreError::InvalidFk)
    );
    let a = t.append(Fk(10), Fk::null()).unwrap();
    assert_eq!(t.count(), 1);
    assert!(t.get(Fk::null()).is_err());
    assert!(t.get(Fk(2)).is_err());
    let back = SpenderTable::open(Some(&t.body_bytes())).unwrap();
    assert_eq!(back.get(a).unwrap(), (Fk(10), Fk::null()));
    assert!(matches!(
        SpenderTable::open(Some(&[0u8; 5])),
        Err(StoreError::Corrupt(_))
    ));
    assert_eq!(SpenderTable::open(None).unwrap().count(), 0);
}

#[test]
fn pure_write_known_null_mmap_and_uring() {
    let mut spenders = SpenderTable::create();
    let sfk = Fk(99);
    let (writes, cold) =
        put_spend_batch_by_abs_meta_known(&mut spenders, 1000, &[(100, Fk(1), 0, sfk)], &[(Fk(0), 0)])
            .unwrap();
    assert!(cold.is_empty());
    assert_eq!(writes.len(), 1);
    assert_eq!(writes[0].abs, 100);
    assert_eq!(writes[0].meta[..8], 99u64.to_le_bytes());
    assert_eq!(writes[0].meta[8] & MULTI_SPENDER, 0);
    assert_eq!(spenders.count(), 0);
}

#[test]
fn pure_write_idempotent_skip() {
    let mut spenders = SpenderTable::create();
    let sfk = Fk(77);
    let edge = (100, Fk(1), 0, sfk);
    let (writes, _) =
        put_spend_batch_by_abs_meta_known(&mut spenders, 1000, &[edge], &[(Fk(0), 0)]).unwrap();
    assert_eq!(writes.len(), 1);
    // Second time with known field==sfk: skip
    let (writes, cold) =
        put_spend_batch_by_abs_meta_known(&mut spenders, 1000, &[edge], &[(sfk, 0)]).unwrap();
    assert!(writes.is_empty());
    assert!(cold.is_empty());
    assert_eq!(spenders.count(), 0);
}

#[test]
fn edges_beyond_the_body_are_cold() {
    let mut spenders = SpenderTable::create();
    let edges = [(995, Fk(1), 2, Fk(7)), (10, Fk(3), 0, Fk(8))];
    let (writes, cold) =
        put_spend_batch_by_abs_meta_known(&mut spenders, 1000, &edges, &[(Fk(0), 0), (Fk(0), 0)])
            .unwrap();
    assert_eq!(writes.len(), 1);
    assert_eq!(writes[0].abs, 10);
    assert_eq!(cold, vec![(Fk(1), 2, Fk(7))]);
    assert!(put_spend_batch_by_abs_meta_known(&mut spenders, 1000, &edges, &[]).is_err());
    assert_eq!(
        put_spend_batch_by_abs_meta_known(&mut spenders, 1000, &[(1, Fk(1), 0, Fk(0))], &[(Fk(0), 0)])
            .err(),
        Some(StoreError::InvalidFk)
    );
}

#[test]
fn a_second_spender_makes_a_list() {
    let mut spenders = SpenderTable::create();
    let m0 = SpenderMeta {
        multi: false,
        field: Fk(0),
    };
    let m1 = put_spend_on_create(&mut spenders, Fk(1), m0, Fk(50))
        .unwrap()
        .unwrap();
    assert_eq!(m1.field, Fk(50));
    let m2 = put_spend_on_create(&mut spenders, Fk(1), m1, Fk(51))
        .unwrap()
        .unwrap();
    assert!(m2.multi);
    let m3 = put_spend_on_create(&mut spenders, Fk(1), m2, Fk(52))
        .unwrap()
        .unwrap();
    let (seen, end) = for_each_spender_create(&spenders, Fk(1), Ok(m3));
    assert_eq!(seen, vec![Fk(52), Fk(51), Fk(50)]);
    assert_eq!(end, Ok(()));
    assert_eq!(
        put_spend_on_create(&mut spenders, Fk(0), m3, Fk(52)),
        Err(StoreError::InvalidFk)
    );
}

#[test]
fn decided_bytes_hold_number_and_flags() {
    let mut spenders = SpenderTable::create();
    let op = decide_annotate(Fk(5), 4, Fk(6), &mut spenders).unwrap();
    match op {
        AnnotateOp::Write(b) => {
            assert_eq!(b[..8], 2u64.to_le_bytes());
            assert_eq!(b[8], 4 | MULTI_SPENDER);
        }
        AnnotateOp::Skip => panic!("a second spender must be written"),
    }
    assert_eq!(spenders.get(Fk(2)).unwrap(), (Fk(6), Fk(1)));
    assert_eq!(spenders.get(Fk(1)).unwrap(), (Fk(5), Fk(0)));
    let same = decide_annotate(Fk(5), 0, Fk(5), &mut spenders).unwrap();
    assert_eq!(same, AnnotateOp::Skip);
}

#[test]
fn machine_serialises_two_spends_of_one_place() {
    let mut spenders = SpenderTable::create();
    let edges = [(100, Fk(1), 0, Fk(7)), (100, Fk(1), 0, Fk(8))];
    let mut m = RmwMachine::start(&edges, 1000).unwrap();
    let (slot, abs) = m.arm().unwrap();
    assert_eq!(abs, 100);
    assert!(m.arm().is_none(), "the place is in use");
    // The output has no spender yet.
    let act = m.complete(&mut spenders, slot, 9, [0u8; 9], true).unwrap();
    let stored = match act {
        RmwAction::Write { buf, abs, .. } => {
            assert_eq!(abs, 100);
            buf
        }
        other => panic!("expected a write, got {other:?}"),
    };
    assert_eq!(stored[..8], 7u64.to_le_bytes());
    assert_eq!(
        m.complete(&mut spenders, slot, 9, stored, true).unwrap(),
        RmwAction::Idle
    );
    let (slot, _) = m.arm().unwrap();
    let act = m.complete(&mut spenders, slot, 9, stored, true).unwrap();
    match act {
        RmwAction::Write { buf, .. } => assert_eq!(buf[8] & MULTI_SPENDER, MULTI_SPENDER),
        other => panic!("expected a write, got {other:?}"),
    }
    m.complete(&mut spenders, slot, 9, stored, true).unwrap();
    assert!(m.arm().is_none());
    assert!(m.finish().is_empty());
    assert_eq!(spenders.count(), 2);
}

#[test]
fn short_reads_are_cold() {
    let mut spenders = SpenderTable::create();
    let mut m = RmwMachine::start(&[(100, Fk(1), 3, Fk(7))], 1000).unwrap();
    let (slot, _) = m.arm().unwrap();
    let act = m.complete(&mut spenders, slot, 4, [0u8; 9], true).unwrap();
    assert_eq!(act, RmwAction::Idle);
    assert_eq!(m.finish(), vec![(Fk(1), 3, Fk(7))]);
    let mut m = RmwMachine::start(&[], 0).unwrap();
    assert!(m.complete(&mut spenders, 500, 9, [0u8; 9], true).is_err());
    assert!(m.complete(&mut spenders, 0, 9, [0u8; 9], true).is_err());
}

#[test]
fn finished_known_writes() {
    let mut spenders = SpenderTable::create();
    let edge = (100, Fk(1), 3, Fk(55));
    let (writes, cold) =
        put_spend_batch_by_abs_meta_known(&mut spenders, 1000, &[edge], &[(Fk(0), 0)]).unwrap();
    assert!(cold.is_empty());
    let w = &writes[0];
    let back = (Fk(1), 3, Fk(55));
    assert_eq!(known_write_done(w, 9, false), KnownDone::Written);
    assert_eq!(known_write_done(w, 9, true), KnownDone::Written);
    assert_eq!(known_write_done(w, 4, false), KnownDone::Cold(back));
    assert_eq!(known_write_done(w, 0, true), KnownDone::Cold(back));
    assert_eq!(known_write_done(w, NOT_SUPPORTED, false), KnownDone::Retry);
    assert_eq!(known_write_done(w, NOT_SUPPORTED, true), KnownDone::Fail(NOT_SUPPORTED));
    assert_eq!(known_write_done(w, -5, false), KnownDone::Fail(-5));
}

/// Runs a batch with up to `room` places in flight; bytes are kept by place.
fn run_batch(edges: &[(u64, Fk, u32, Fk)], room: usize) -> (Vec<(u64, u64)>, Vec<(Fk, u32, Fk)>) {
    let mut spenders = SpenderTable::create();
    let mut m = RmwMachine::start(edges, 10_000).unwrap();
    let mut body = vec![0u8; 10_100];
    let mut order = Vec::new();
    loop {
        let mut flying = Vec::new();
        while flying.len() < room {
            match m.arm() {
                Some(x) => flying.push(x),
                None => break,
            }
        }
        if flying.is_empty() {
            break;
        }
        for (slot, abs) in flying {
            let at = abs as usize;
            let mut buf = [0u8; 9];
            buf.copy_from_slice(&body[at..at + 9]);
            match m.complete(&mut spenders, slot, 9, buf, true).unwrap() {
                RmwAction::Write { abs, buf, .. } => {
                    body[at..at + 9].copy_from_slice(&buf);
                    let multi = buf[8] & MULTI_SPENDER != 0;
                    let field = u64::from_le_bytes(buf[..8].try_into().unwrap());
                    let spender = if multi { spenders.get(Fk(field)).unwrap().0 .0 } else { field };
                    order.push((abs, spender));
                    m.complete(&mut spenders, slot, 9, buf, true).unwrap();
                }
                other => panic!("{other:?}"),
            }
        }
    }
    (order, m.finish())
}

#[test]
fn edges_of_a_place_take_their_turns() {
    let mut edges = Vec::new();
    for i in 0..300u64 {
        edges.push((100 * (i % 7), Fk(i + 1), 0, Fk(1000 + i)));
    }
    for room in [1, 3, 200] {
        let (order, cold) = run_batch(&edges, room);
        assert!(cold.is_empty());
        assert_eq!(order.len(), edges.len());
        for place in 0..7u64 {
            let got: Vec<u64> =
                order.iter().filter(|o| o.0 == 100 * place).map(|o| o.1).collect();
            let want: Vec<u64> =
                edges.iter().filter(|e| e.0 == 100 * place).map(|e| e.3 .0).collect();
            assert_eq!(got, want);
        }
    }
    let (_, cold) = run_batch(&[(9_995, Fk(1), 2, Fk(3)), (50, Fk(4), 5, Fk(6))], 128);
    assert_eq!(cold, vec![(Fk(1), 2, Fk(3))]);
}

#[test]
fn a_full_machine_is_left_alone() {
    let edges: Vec<_> = (0..130u64).map(|i| (10 * i, Fk(i + 1), 0, Fk(i + 1))).collect();
    let mut m = RmwMachine::start(&edges, 10_000).unwrap();
    for i in 0..128u64 {
        assert_eq!(m.arm().map(|x| x.1), Some(10 * i));
    }
    assert!(m.arm().is_none());
    assert_eq!(m.pending.len(), 2);
    assert!(m.waiting.is_empty());
}
