use diamond_types::encoding::varint::ParseError;
use diamond_types::list::encoding::decode;
use diamond_types::list::operation::{InsDelTag, UnitOp};
use diamond_types::list::oplog::{CRDTId, OpLog};

/// Alice has typed "ab".
fn start() -> OpLog {
    let mut log = OpLog::new();
    let alice = log.get_or_create_agent_id("alice");
    log.push_insert_at(alice, &[], 0, "ab");
    log
}

fn holds_the_same(a: &OpLog, b: &OpLog) -> bool {
    a.half_eq_exec(b) && b.half_eq_exec(a)
}

#[test]
fn two_replicas_converge() {
    let mut a = start();
    let mut b = decode(&a.encode()).expect("a log");
    assert!(a.eq(&b));

    // Both go on from "ab": Bob adds "c", Alice deletes "a".
    let bob = b.get_or_create_agent_id("bob");
    b.push_insert_at(bob, &[1], 2, "c");
    let alice = a.get_or_create_agent_id("alice");
    a.push_delete_at(alice, &[1], 0, 1);
    assert!(!holds_the_same(&a, &b));

    let bytes_a = a.encode();
    let bytes_b = b.encode();
    let f = a.decode_and_merge(&bytes_b).expect("logs that agree");
    assert_eq!(f.as_slice(), &[2, 3]);
    assert_eq!(a.len(), 4);
    let f = b.decode_and_merge(&bytes_a).expect("logs that agree");
    assert_eq!(f.as_slice(), &[2, 3]);
    assert_eq!(b.len(), 4);
    assert!(holds_the_same(&a, &b));

    // What Alice has taken over from Bob.
    let bob_at_a = a.get_agent_id("bob").expect("bob is known");
    assert_eq!(a.time_to_crdt_id(3), CRDTId { agent: bob_at_a, seq: 0 });
    let op = a.op_unit_at(3);
    assert_eq!((op.tag, op.pos, op.content_known), (InsDelTag::Ins, 2, true));
    assert_eq!(a.ins_content[op.content], 'c');
    assert_eq!(a.parents_vec(3), vec![1]);
    // What she had is where it was.
    assert_eq!(
        a.op_unit_at(2),
        UnitOp { tag: InsDelTag::Del, pos: 0, content_known: false, content: 0 }
    );
    // And the other way round.
    let alice_at_b = b.get_agent_id("alice").expect("alice is known");
    assert_eq!(b.time_to_crdt_id(3), CRDTId { agent: alice_at_b, seq: 2 });
    assert_eq!(b.op_unit_at(3).tag, InsDelTag::Del);
    assert_eq!(b.parents_vec(3), vec![1]);
}

#[test]
fn merging_again_changes_nothing() {
    let mut a = start();
    let mut b = start();
    let bob = b.get_or_create_agent_id("bob");
    b.push_insert_at(bob, &[], 0, "xyz");
    b.push_delete_at(bob, &[1, 4], 1, 2);
    assert_eq!(a.merge_from(&b), Ok(()));
    assert_eq!(a.len(), 7);
    let bytes = a.encode();
    assert_eq!(a.merge_from(&b), Ok(()));
    assert_eq!(a.len(), 7);
    assert_eq!(a.encode(), bytes);
    // The parents of the deletion, in the numbers of `a`.
    assert_eq!(a.parents_vec(5), vec![1, 4]);
    assert_eq!(a.frontier().as_slice(), &[6]);
}

#[test]
fn an_empty_log_takes_over_all() {
    let mut a = start();
    let bob = a.get_or_create_agent_id("bob");
    a.push_insert_at(bob, &[0], 1, "--");
    a.push_delete_at(0, &[1, 3], 0, 3);
    let mut e = OpLog::new();
    assert_eq!(e.merge_from(&a), Ok(()));
    assert!(e.eq(&a));
    assert_eq!(e.encode(), a.encode());
}

#[test]
fn logs_that_contradict_each_other_are_not_merged() {
    let mut a = OpLog::new();
    let alice = a.get_or_create_agent_id("alice");
    a.push_insert_at(alice, &[], 0, "x");
    let mut c = OpLog::new();
    let alice = c.get_or_create_agent_id("alice");
    c.push_insert_at(alice, &[], 0, "y");
    assert_eq!(a.merge_from(&c), Err(ParseError::IntegrityError));
    assert_eq!(a.len(), 1);
    assert_eq!(a.ins_content, vec!['x']);

    // The same operation with other parents.
    let mut d = start();
    d.push_insert_at(0, &[0], 0, "z");
    let mut e = start();
    e.push_insert_at(0, &[1], 0, "z");
    assert_eq!(d.merge_from(&e), Err(ParseError::IntegrityError));
    assert_eq!(d.len(), 3);
}

#[test]
fn bytes_that_are_no_log_are_not_merged() {
    let mut a = start();
    let before = a.encode();
    assert_eq!(a.decode_and_merge(b"nothing of the kind").err(), Some(ParseError::BadMagic));
    assert_eq!(a.encode(), before);
    let mut cut = before.clone();
    cut.truncate(before.len() - 3);
    assert!(a.decode_and_merge(&cut).is_err());
    assert_eq!(a.encode(), before);
}

#[test]
fn three_replicas_in_a_ring() {
    let mut logs = vec![start(), start(), start()];
    let names = ["x", "y", "z"];
    for (k, log) in logs.iter_mut().enumerate() {
        let agent = log.get_or_create_agent_id(names[k]);
        log.push_insert_at(agent, &[1], k, names[k]);
    }
    // Each takes over from the one before it, twice round.
    for round in 0..2 {
        for k in 0..3 {
            let bytes = logs[(k + 2) % 3].encode();
            logs[k].decode_and_merge(&bytes).expect("logs that agree");
        }
        if round == 0 {
            assert_eq!(logs[0].len(), 4);
            assert_eq!(logs[2].len(), 5);
        }
    }
    for log in &logs {
        assert_eq!(log.len(), 5);
        assert_eq!(log.frontier().as_slice(), &[2, 3, 4]);
    }
    assert!(holds_the_same(&logs[0], &logs[1]));
    assert!(holds_the_same(&logs[1], &logs[2]));
}

#[test]
fn a_failed_merge_leaves_the_log_as_it_was() {
    // The logs agree on what Alice typed first, and not on what she did
    // next: nothing of the other log is taken over, not even Bob.
    let mut a = start();
    a.push_delete_at(0, &[1], 0, 1);
    let mut b = start();
    let bob = b.get_or_create_agent_id("bob");
    b.push_insert_at(bob, &[1], 2, "c");
    b.push_insert_at(0, &[1], 0, "z");
    let bytes = a.encode();
    assert!(!a.agrees(&b));
    assert_eq!(a.merge_from(&b), Err(ParseError::IntegrityError));
    assert_eq!(a.encode(), bytes);
    assert_eq!(a.get_agent_id("bob"), None);
    assert_eq!(a.decode_and_merge(&b.encode()).err(), Some(ParseError::IntegrityError));
    assert_eq!(a.encode(), bytes);
    assert_eq!(a.get_agent_id("bob"), None);
}

#[test]
fn logs_agree_where_they_hold_the_same_of_what_both_hold() {
    let mut a = start();
    let mut b = start();
    assert!(a.agrees(&b));
    let bob = b.get_or_create_agent_id("bob");
    b.push_insert_at(bob, &[0], 1, "c");
    a.push_delete_at(0, &[1], 0, 2);
    assert!(a.agrees(&b) && b.agrees(&a));
    assert_eq!(a.merge_from(&b), Ok(()));
    assert!(a.agrees(&b) && b.agrees(&a));
    // Parents that are not in order in the log that takes them over.
    let mut c = OpLog::new();
    let bob = c.get_or_create_agent_id("bob");
    c.push_insert_at(bob, &[], 0, "q");
    let mut d = start();
    let bob = d.get_or_create_agent_id("bob");
    d.push_insert_at(bob, &[], 0, "q");
    d.push_delete_at(bob, &[1, 2], 0, 1);
    assert_eq!(c.merge_from(&d), Ok(()));
    assert_eq!(c.len(), 4);
    assert_eq!(c.parents_vec(3), vec![0, 2]);
}
