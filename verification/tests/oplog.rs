use diamond_types::dtrange::DTRange;
use diamond_types::list::operation::{InsDelTag, OpSpan, UnitOp};
use diamond_types::list::oplog::{CRDTId, OpLog};
use diamond_types::rle::{HasLength, MergableSpan, SplitableSpan, SplitableSpanHelpers};

fn is_eq(a: &OpLog, b: &OpLog) -> bool {
    let a_eq_b = a.eq(b);
    let b_eq_a = b.eq(a);
    assert_eq!(a_eq_b, b_eq_a);
    a_eq_b
}

#[test]
fn eq_smoke_test() {
    let mut a = OpLog::new();
    a.get_or_create_agent_id("seph");
    a.get_or_create_agent_id("mike");
    a.push_insert_at(0, &[], 0, "Aa");
    a.push_insert_at(1, &[], 0, "b");
    a.push_delete_at(0, &[1, 2], 0, 2);

    // Same history, different order.
    let mut b = OpLog::new();
    b.get_or_create_agent_id("mike");
    b.get_or_create_agent_id("seph");
    b.push_insert_at(0, &[], 0, "b");
    b.push_insert_at(1, &[], 0, "Aa");
    b.push_delete_at(1, &[0, 2], 0, 2);

    assert!(is_eq(&a, &b));

    // And now with the edits interleaved
    let mut c = OpLog::new();
    c.get_or_create_agent_id("seph");
    c.get_or_create_agent_id("mike");
    c.push_insert_at(0, &[], 0, "A");
    c.push_insert_at(1, &[], 0, "b");
    c.push_insert_at(0, &[0], 1, "a");
    c.push_delete_at(0, &[1, 2], 0, 2);

    assert!(is_eq(&a, &c));
    assert!(is_eq(&b, &c));
}

fn sample() -> OpLog {
    let mut a = OpLog::new();
    let seph = a.get_or_create_agent_id("seph");
    let mike = a.get_or_create_agent_id("mike");
    a.push_insert_at(seph, &[], 0, "Aa");
    a.push_insert_at(mike, &[], 0, "b");
    a.push_delete_at(seph, &[1, 2], 0, 2);
    a
}

#[test]
fn logs_that_differ_are_not_equal() {
    let a = sample();
    assert!(is_eq(&a, &a));
    assert!(is_eq(&OpLog::new(), &OpLog::new()));
    assert!(!is_eq(&a, &OpLog::new()));

    // Another character.
    let mut b = OpLog::new();
    b.get_or_create_agent_id("seph");
    b.get_or_create_agent_id("mike");
    b.push_insert_at(0, &[], 0, "Ab");
    b.push_insert_at(1, &[], 0, "b");
    b.push_delete_at(0, &[1, 2], 0, 2);
    assert!(!is_eq(&a, &b));

    // Another position.
    let mut b = OpLog::new();
    b.get_or_create_agent_id("seph");
    b.get_or_create_agent_id("mike");
    b.push_insert_at(0, &[], 0, "Aa");
    b.push_insert_at(1, &[], 1, "b");
    b.push_delete_at(0, &[1, 2], 0, 2);
    assert!(!is_eq(&a, &b));

    // Other parents.
    let mut b = OpLog::new();
    b.get_or_create_agent_id("seph");
    b.get_or_create_agent_id("mike");
    b.push_insert_at(0, &[], 0, "Aa");
    b.push_insert_at(1, &[1], 0, "b");
    b.push_delete_at(0, &[2], 0, 2);
    assert!(!is_eq(&a, &b));

    // Another agent name.
    let mut b = OpLog::new();
    b.get_or_create_agent_id("seph");
    b.get_or_create_agent_id("kate");
    b.push_insert_at(0, &[], 0, "Aa");
    b.push_insert_at(1, &[], 0, "b");
    b.push_delete_at(0, &[1, 2], 0, 2);
    assert!(!is_eq(&a, &b));

    // A deletion in place of an insertion.
    let mut b = OpLog::new();
    b.get_or_create_agent_id("seph");
    b.get_or_create_agent_id("mike");
    b.push_insert_at(0, &[], 0, "Aa");
    b.push_delete_at(1, &[], 0, 1);
    b.push_delete_at(0, &[1, 2], 0, 2);
    assert!(!is_eq(&a, &b));

    // An agent that has made nothing does not count.
    let mut b = sample();
    b.get_or_create_agent_id("idle");
    assert!(is_eq(&a, &b));
}

#[test]
fn equality_is_transitive() {
    let a = sample();
    let mut b = OpLog::new();
    b.get_or_create_agent_id("mike");
    b.get_or_create_agent_id("seph");
    b.push_insert_at(0, &[], 0, "b");
    b.push_insert_at(1, &[], 0, "Aa");
    b.push_delete_at(1, &[0, 2], 0, 2);
    let mut c = OpLog::new();
    c.get_or_create_agent_id("zed");
    c.get_or_create_agent_id("seph");
    c.get_or_create_agent_id("mike");
    c.push_insert_at(1, &[], 0, "A");
    c.push_insert_at(2, &[], 0, "b");
    c.push_insert_at(1, &[0], 1, "a");
    c.push_delete_at(1, &[1, 2], 0, 1);
    c.push_delete_at(1, &[3], 0, 1);
    assert!(is_eq(&a, &b) && is_eq(&b, &c) && is_eq(&a, &c));
}

#[test]
fn pushes_give_out_versions_in_order() {
    let mut log = OpLog::new();
    assert!(log.is_empty());
    let seph = log.get_or_create_agent_id("seph");
    assert_eq!(log.get_or_create_agent_id("seph"), seph);
    assert_eq!(log.get_agent_id("seph"), Some(0));
    assert_eq!(log.get_agent_id("mike"), None);
    let mike = log.get_or_create_agent_id("mike");
    assert_eq!((seph, mike), (0, 1));

    assert_eq!(log.push_insert(seph, 0, "h\u{e9}llo"), DTRange::new(0, 5));
    assert_eq!(log.frontier().as_slice(), &[4]);
    assert_eq!(log.push_insert(seph, 5, ""), DTRange::new(5, 5));
    assert_eq!(log.push_delete(mike, 1, 3), DTRange::new(5, 8));
    assert_eq!(log.push_delete(mike, 0, 0), DTRange::new(8, 8));
    assert_eq!(log.push_insert_at(seph, &[4], 5, "!"), DTRange::new(8, 9));
    assert_eq!(log.len(), 9);
    assert_eq!(log.frontier().as_slice(), &[7, 8]);
    assert_eq!(log.ins_content, vec!['h', '\u{e9}', 'l', 'l', 'o', '!']);

    assert_eq!(log.time_to_crdt_id(0), CRDTId { agent: seph, seq: 0 });
    assert_eq!(log.time_to_crdt_id(4), CRDTId { agent: seph, seq: 4 });
    assert_eq!(log.time_to_crdt_id(6), CRDTId { agent: mike, seq: 1 });
    assert_eq!(log.time_to_crdt_id(8), CRDTId { agent: seph, seq: 5 });
    for t in 0..log.len() {
        assert_eq!(log.crdt_id_to_time(log.time_to_crdt_id(t)), Some(t));
    }
    assert_eq!(log.crdt_id_to_time(CRDTId { agent: mike, seq: 3 }), None);
    assert_eq!(log.crdt_id_to_time(CRDTId { agent: 7, seq: 0 }), None);

    assert_eq!(
        log.op_unit_at(1),
        UnitOp { tag: InsDelTag::Ins, pos: 1, content_known: true, content: 1 }
    );
    assert_eq!(
        log.op_unit_at(7),
        UnitOp { tag: InsDelTag::Del, pos: 1, content_known: false, content: 0 }
    );
    assert_eq!(
        log.op_unit_at(8),
        UnitOp { tag: InsDelTag::Ins, pos: 5, content_known: true, content: 5 }
    );
    assert_eq!(log.parents_vec(0), Vec::<usize>::new());
    assert_eq!(log.parents_vec(3), vec![2]);
    assert_eq!(log.parents_vec(5), vec![4]);
    assert_eq!(log.parents_vec(8), vec![4]);
    // Runs that go on are merged.
    assert_eq!(log.client_with_localtime.0.len(), 3);
    assert_eq!(log.operations.0.len(), 3);
    assert_eq!(log.history.entries.0.len(), 2);
}

fn check_op_splits(entry: OpSpan) {
    for i in 1..entry.len() {
        let mut start = entry;
        let end = start.truncate(i);
        assert_eq!(start.len(), i);
        assert_eq!(end.len(), entry.len() - i);
        for k in 0..entry.len() {
            let unit = if k < i { start.unit(k) } else { end.unit(k - i) };
            assert_eq!(unit, entry.unit(k));
        }
        assert!(start.can_append(&end));
        let mut merge_append = start;
        merge_append.append(end);
        assert_eq!(merge_append, entry);
        let mut merge_prepend = end;
        merge_prepend.prepend(start);
        assert_eq!(merge_prepend, entry);
        let mut end2 = entry;
        let start2 = end2.truncate_keeping_right(i);
        assert_eq!((start2, end2), (start, end));
        assert_eq!(entry.split_h(i), (start, end));
    }
}

#[test]
fn operations_split_and_merge() {
    check_op_splits(OpSpan::new_insert(10, 5, 100));
    check_op_splits(OpSpan::new_delete(10, 5));
    let backspace = OpSpan {
        tag: InsDelTag::Del,
        start: 10,
        end: 15,
        fwd: false,
        content_known: false,
        content_start: 0,
    };
    check_op_splits(backspace);
    assert_eq!(backspace.unit(0).pos, 14);
    assert_eq!(backspace.unit(4).pos, 10);
    assert_eq!(OpSpan::new_delete(10, 5).unit(3).pos, 10);
    assert_eq!(OpSpan::new_insert(10, 5, 100).unit(3).pos, 13);
}

#[test]
fn insertions_and_deletions_are_not_merged() {
    let ins = OpSpan::new_insert(0, 2, 0);
    assert!(ins.can_append(&OpSpan::new_insert(2, 1, 2)));
    // Another place, or content that does not go on.
    assert!(!ins.can_append(&OpSpan::new_insert(3, 1, 2)));
    assert!(!ins.can_append(&OpSpan::new_insert(2, 1, 5)));
    assert!(!ins.can_append(&OpSpan::new_delete(2, 1)));
    let del = OpSpan::new_delete(2, 1);
    assert!(!del.can_append(&OpSpan::new_insert(2, 1, 0)));
    // A deletion goes on at the same place, or just before it.
    assert!(del.can_append(&OpSpan::new_delete(2, 3)));
    assert!(del.can_append(&OpSpan::new_delete(1, 1)));
    assert!(!del.can_append(&OpSpan::new_delete(3, 1)));
    assert!(!del.can_append(&OpSpan::new_delete(0, 2)));
    let mut joined = del;
    joined.append(OpSpan::new_delete(1, 1));
    assert_eq!((joined.start, joined.end, joined.fwd), (1, 3, false));
    let mut joined = del;
    joined.append(OpSpan::new_delete(2, 3));
    assert_eq!((joined.start, joined.end, joined.fwd), (2, 6, true));
}
