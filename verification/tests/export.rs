use diamond_types::export::{check_trace_invariants, ExportTraceProblems, SimpleTextOp};
use diamond_types::list::operation::{InsDelTag, OpSpan};
use diamond_types::list::oplog::OpLog;
use diamond_types::rle::HasLength;

fn ins(pos: usize, text: &str, timestamp: i64) -> SimpleTextOp {
    SimpleTextOp { pos, del_len: 0, ins_content: text.chars().collect(), timestamp }
}

fn del(pos: usize, del_len: usize, timestamp: i64) -> SimpleTextOp {
    SimpleTextOp { pos, del_len, ins_content: Vec::new(), timestamp }
}

#[test]
fn typing_on_is_joined() {
    let mut a = ins(3, "he", 10);
    assert!(a.can_append(&ins(5, "llo", 10)));
    // Not at the end of what was typed.
    assert!(!a.can_append(&ins(4, "llo", 10)));
    // At another time.
    assert!(!a.can_append(&ins(5, "llo", 11)));
    // A deletion does not go on an insertion.
    assert!(!a.can_append(&del(5, 1, 10)));
    a.append(ins(5, "llo", 10));
    assert_eq!(a.pos, 3);
    assert_eq!(a.del_len, 0);
    assert_eq!(a.ins_content, "hello".chars().collect::<Vec<char>>());
    assert_eq!(a.timestamp, 10);
}

#[test]
fn deleting_on_is_joined() {
    let mut a = del(7, 2, 0);
    assert!(a.can_append(&del(7, 3, 0)));
    assert!(!a.can_append(&del(8, 3, 0)));
    assert!(!a.can_append(&ins(7, "x", 0)));
    a.append(del(7, 3, 0));
    assert_eq!(a.pos, 7);
    assert_eq!(a.del_len, 5);
    assert!(a.ins_content.is_empty());
}

#[test]
fn an_operation_of_a_log_as_a_trace_operation() {
    let content: Vec<char> = "abcdefgh".chars().collect();
    let op = OpSpan::new_insert(4, 3, 2);
    let t = SimpleTextOp::from_op(&op, &content);
    assert_eq!(t.pos, 4);
    assert_eq!(t.del_len, 0);
    assert_eq!(t.ins_content, vec!['c', 'd', 'e']);
    assert_eq!(t.timestamp, 0);

    let op = OpSpan::new_delete(9, 4);
    let t = SimpleTextOp::from_op(&op, &content);
    assert_eq!(t.pos, 9);
    assert_eq!(t.del_len, 4);
    assert!(t.ins_content.is_empty());
}

#[test]
fn a_trace_operation_as_an_operation_of_a_log() {
    let op = ins(4, "cde", 0).to_op(2).expect("an insertion");
    assert_eq!(op.tag, InsDelTag::Ins);
    assert_eq!(op.len(), 3);
    assert_eq!(op, OpSpan::new_insert(4, 3, 2));

    let op = del(9, 4, 0).to_op(0).expect("a deletion");
    assert_eq!(op.tag, InsDelTag::Del);
    assert_eq!(op, OpSpan::new_delete(9, 4));

    // Neither an insertion nor a deletion, or both.
    assert_eq!(del(9, 0, 0).to_op(0), None);
    let both = SimpleTextOp { pos: 0, del_len: 1, ins_content: vec!['x'], timestamp: 0 };
    assert_eq!(both.to_op(0), None);
    // Beyond the index space.
    assert_eq!(del(usize::MAX, 1, 0).to_op(0), None);
    assert_eq!(ins(0, "x", 0).to_op(usize::MAX), None);
}

#[test]
fn back_and_forth_between_log_and_trace() {
    let content: Vec<char> = "abcdefgh".chars().collect();
    for op in [OpSpan::new_insert(0, 8, 0), OpSpan::new_insert(5, 2, 6), OpSpan::new_delete(3, 1)] {
        let t = SimpleTextOp::from_op(&op, &content);
        assert_eq!(t.to_op(op.content_start), Some(op));
    }
}

#[test]
fn one_root_makes_a_trace() {
    let mut log = OpLog::new();
    let a = log.get_or_create_agent_id("a");
    let b = log.get_or_create_agent_id("b");
    log.push_insert_at(a, &[], 0, "ab");
    log.push_insert_at(b, &[1], 2, "c");
    log.push_delete_at(a, &[1], 0, 1);
    let r = check_trace_invariants(&log, false);
    assert_eq!(
        r,
        ExportTraceProblems {
            has_conflicts: false,
            agent_ops_not_fully_ordered: false,
            multiple_roots: false
        }
    );
    assert!(r.is_ok());
    let r = check_trace_invariants(&log, true);
    assert!(r.has_conflicts);
    assert!(!r.is_ok());
}

#[test]
fn two_roots_make_no_trace() {
    let mut log = OpLog::new();
    let a = log.get_or_create_agent_id("a");
    let b = log.get_or_create_agent_id("b");
    log.push_insert_at(a, &[], 0, "ab");
    log.push_insert_at(b, &[], 0, "c");
    let r = check_trace_invariants(&log, false);
    assert!(r.multiple_roots);
    assert!(!r.is_ok());
    // An empty log has no root at all.
    let r = check_trace_invariants(&OpLog::new(), false);
    assert!(!r.multiple_roots);
    assert!(r.is_ok());
}
