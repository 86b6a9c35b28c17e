use diamond_types::dtrange::DTRange;
use diamond_types::encoding::encode_tools::{
    push_leb_chunk, push_leb_chunk_header, push_leb_str, push_leb_u32, push_leb_u64,
    push_leb_usize, push_u32_le, read_leb_chunk, write_leb_bit_run, ChunkError, ChunkHeader,
    ListChunkType, Merger,
};
use diamond_types::rev_range::RangeRev;
use diamond_types::rle::rle_vec::RleVec;
use diamond_types::rle::take_max_iter::{zip_next, Rem, TakeMaxFns, TakeMaxIter};
use diamond_types::rle::{
    split_append_round_trip, HasLength, KVPair, MergableSpan, RleKeyed, RleRun, RleSpanHelpers,
    SplitableSpan, SplitableSpanHelpers, TimeSpan,
};
use std::fmt::Debug;

fn range(start: usize, end: usize) -> DTRange {
    DTRange { start, end }
}

/// Cuts the run at every inner offset and checks that the halves have the
/// right lengths and merge into the run again.
fn test_splitable_methods_valid<E>(entry: E)
where
    E: SplitableSpan + MergableSpan + Clone + Debug + PartialEq,
{
    assert!(entry.len() >= 2, "Call this with a larger entry");
    for i in 1..entry.len() {
        // Split here and make sure we get the expected results.
        let mut start = entry.clone();
        let end = start.truncate(i);

        assert_eq!(start.len(), i);
        assert_eq!(end.len(), entry.len() - i);

        assert!(start.can_append(&end));

        let mut merge_append = start.clone();
        merge_append.append(end.clone());
        assert_eq!(merge_append, entry);

        let mut merge_prepend = end.clone();
        merge_prepend.prepend(start.clone());
        assert_eq!(merge_prepend, entry);

        // Split using truncate_keeping_right. We should get the same behaviour.
        let mut end2 = entry.clone();
        let start2 = end2.truncate_keeping_right(i);
        assert_eq!(end2, end);
        assert_eq!(start2, start);
    }
}

#[test]
fn kvpair_valid() {
    test_splitable_methods_valid(KVPair(10, TimeSpan { start: 10, len: 5 }));
}

#[test]
fn check_max_take_works() {
    let items = vec![RleRun { val: 5, len: 1 }, RleRun { val: 15, len: 7 }];

    let mut out = Vec::new();
    let mut iter = items.take_max();
    while let Some(v) = iter.next(3) {
        out.push(v);
    }

    assert_eq!(
        &out,
        &[
            RleRun { val: 5, len: 1 },
            RleRun { val: 15, len: 3 },
            RleRun { val: 15, len: 3 },
            RleRun { val: 15, len: 1 },
        ]
    );
}

#[test]
fn split_fwd_rev() {
    let fwd = RangeRev { span: range(1, 4), fwd: true };
    let (a, b) = fwd.split_h(1);
    assert!(a.same(&RangeRev { span: range(1, 2), fwd: true }));
    assert!(b.same(&RangeRev { span: range(2, 4), fwd: true }));

    let rev = RangeRev { span: range(1, 4), fwd: false };
    assert_eq!(rev.range(0, 3), rev.span);
    let (a, b) = rev.split_h(1);
    assert!(a.same(&RangeRev { span: range(3, 4), fwd: false }));
    assert!(b.same(&RangeRev { span: range(1, 3), fwd: false }));
}

fn check_range_rev_splits(entry: RangeRev) {
    for i in 1..entry.len() {
        let mut start = entry;
        let end = start.truncate(i);
        assert_eq!(start.len(), i);
        assert_eq!(end.len(), entry.len() - i);
        assert!(start.can_append(&end));

        let mut merge_append = start;
        merge_append.append(end);
        assert!(merge_append.same(&entry));

        let mut merge_prepend = end;
        merge_prepend.prepend(start);
        assert!(merge_prepend.same(&entry));

        let mut end2 = entry;
        let start2 = end2.truncate_keeping_right(i);
        assert!(end2.same(&end));
        assert!(start2.same(&start));
    }
}

#[test]
fn splitable_mergable() {
    check_range_rev_splits(RangeRev { span: range(1, 5), fwd: true });
    check_range_rev_splits(RangeRev { span: range(1, 5), fwd: false });
}

#[test]
fn at_offset() {
    for fwd in [true, false] {
        let span = RangeRev { span: range(1, 5), fwd };

        for offset in 1..span.len() {
            let (a, b) = span.split_h(offset);
            assert_eq!(span.lv_at_offset(offset - 1), a.lv_at_offset(offset - 1));
            assert_eq!(span.lv_at_offset(offset), b.lv_at_offset(0));
        }
    }
}

#[test]
fn range_rev_equality_ignores_direction_of_single_versions() {
    let a = RangeRev { span: range(3, 4), fwd: true };
    let b = RangeRev { span: range(3, 4), fwd: false };
    assert!(a.same(&b));
    let c = RangeRev { span: range(3, 5), fwd: true };
    let d = RangeRev { span: range(3, 5), fwd: false };
    assert!(!c.same(&d));
    assert!(!a.same(&c));
}

#[test]
fn range_rev_offsets() {
    let fwd = RangeRev::from_span(range(10, 14));
    assert_eq!(fwd.lv_at_offset(0), 10);
    assert_eq!(fwd.lv_at_offset(3), 13);
    assert_eq!(fwd.range(1, 3), range(11, 13));
    let rev = RangeRev { span: range(10, 14), fwd: false };
    assert_eq!(rev.lv_at_offset(0), 13);
    assert_eq!(rev.lv_at_offset(3), 10);
    assert_eq!(rev.range(1, 3), range(11, 13));
    assert_eq!(rev.range(0, 1), range(13, 14));
}

#[test]
fn range_rev_merges_single_versions_either_way() {
    let mut a = RangeRev { span: range(5, 6), fwd: true };
    let up = RangeRev { span: range(6, 7), fwd: true };
    let down = RangeRev { span: range(4, 5), fwd: true };
    assert!(a.can_append(&up));
    assert!(a.can_append(&down));
    a.append(down);
    assert!(a.same(&RangeRev { span: range(4, 6), fwd: false }));
    // Now the direction is fixed.
    assert!(!a.can_append(&RangeRev { span: range(6, 7), fwd: true }));
    assert!(a.can_append(&RangeRev { span: range(3, 4), fwd: true }));
    assert!(!a.can_append(&RangeRev { span: range(2, 4), fwd: true }));
}

#[test]
fn dtrange_basics() {
    let r = DTRange::new(3, 7);
    assert_eq!(r, DTRange::new_from_len(3, 4));
    assert_eq!(HasLength::len(&r), 4);
    assert_eq!(r.last(), 6);
    assert!(r.contains(3) && r.contains(6) && !r.contains(7) && !r.contains(2));
    assert!(!r.is_empty());
    assert!(DTRange::new(4, 4).is_empty());
    test_splitable_methods_valid(r);
    test_splitable_methods_valid(TimeSpan { start: 2, len: 6 });
}

#[test]
fn split_then_append_gives_the_run_back() {
    for k in 1..6 {
        let mut s = KVPair(100, DTRange::new(20, 26));
        split_append_round_trip(&mut s, k);
        assert_eq!(s, KVPair(100, DTRange::new(20, 26)));
        let (l, r) = KVPair(100, DTRange::new(20, 26)).split_h(k);
        assert_eq!(l, KVPair(100, DTRange::new(20, 20 + k)));
        assert_eq!(r, KVPair(100 + k, DTRange::new(20 + k, 26)));
        let mut l2 = l;
        l2.append(r);
        assert_eq!(l2, s);
    }
}

#[test]
fn kvpair_key_and_end() {
    let p = KVPair(10, TimeSpan { start: 3, len: 5 });
    assert_eq!(p.get_rle_key(), 10);
    assert_eq!(p.end(), 15);
    assert!(p.can_append(&KVPair(15, TimeSpan { start: 8, len: 1 })));
    assert!(!p.can_append(&KVPair(16, TimeSpan { start: 8, len: 1 })));
    assert!(!p.can_append(&KVPair(15, TimeSpan { start: 9, len: 1 })));
}

#[test]
fn rle_vec_push_merges_and_finds() {
    let mut v: RleVec<KVPair<TimeSpan>> = RleVec::new();
    assert!(v.is_empty());
    assert_eq!(v.end(), 0);
    assert!(!v.push(KVPair(0, TimeSpan { start: 100, len: 3 })));
    assert!(v.push(KVPair(3, TimeSpan { start: 103, len: 2 })));
    assert!(!v.push(KVPair(5, TimeSpan { start: 50, len: 4 })));
    assert_eq!(v.num_entries(), 2);
    assert_eq!(v.0[0], KVPair(0, TimeSpan { start: 100, len: 5 }));
    assert_eq!(v.end(), 9);
    assert_eq!(v.find_index(4), Some(0));
    assert_eq!(v.find_index(5), Some(1));
    assert_eq!(v.find_index(8), Some(1));
    assert_eq!(v.find_index(9), None);
    assert_eq!(v.find(9), None);
    assert_eq!(v.find(2), Some(&KVPair(0, TimeSpan { start: 100, len: 5 })));
    assert_eq!(v.find_packed(7), &KVPair(5, TimeSpan { start: 50, len: 4 }));
    let (e, offset) = v.find_packed_with_offset(7);
    assert_eq!((*e, offset), (KVPair(5, TimeSpan { start: 50, len: 4 }), 2));
}

#[test]
fn a_remainder_says_when_it_wants_a_run() {
    let mut rem: Rem<DTRange> = Rem::new();
    assert!(rem.wants_next());
    assert_eq!(rem.take_max_opt(3, Some(range(0, 5))), Some(range(0, 3)));
    assert!(!rem.wants_next());
    assert_eq!(rem.take_max_opt(3, None), Some(range(3, 5)));
    assert!(rem.wants_next());
    assert_eq!(rem.take_max_opt(3, None), None);
}

#[test]
fn rem_takes_pieces() {
    let mut rem: Rem<DTRange> = Rem::new();
    assert_eq!(rem.take_max_opt(3, None), None);
    assert_eq!(rem.take_max_opt(3, Some(range(0, 7))), Some(range(0, 3)));
    // The next run is not looked at while a remainder is kept.
    assert_eq!(rem.take_max_opt(3, Some(range(50, 51))), Some(range(3, 6)));
    assert_eq!(rem.take_max_primed(3), range(6, 7));
    assert!(rem.0.is_none());
    rem.prime(Some(range(10, 12)));
    rem.prime(Some(range(20, 22)));
    assert_eq!(rem.0, Some(range(10, 12)));
    assert_eq!(rem.take_max_result::<u8>(5, Err(1)), Ok(range(10, 12)));
    assert_eq!(rem.take_max_result::<u8>(5, Err(1)), Err(1));
    assert_eq!(rem.take_max_result::<u8>(1, Ok(range(0, 2))), Ok(range(0, 1)));
    assert_eq!(rem.0, Some(range(1, 2)));
}

#[test]
fn take_max_peek_and_zip() {
    let mut a = TakeMaxIter::new(vec![range(0, 5), range(10, 12)]);
    let mut b = vec![RleRun { val: 'x', len: 2 }, RleRun { val: 'y', len: 10 }].take_max();
    assert_eq!(a.peek(), Some(range(0, 5)));
    assert_eq!(a.peek(), Some(range(0, 5)));
    assert_eq!(zip_next(&mut a, &mut b, 100), Some((range(0, 2), RleRun { val: 'x', len: 2 })));
    assert_eq!(zip_next(&mut a, &mut b, 2), Some((range(2, 4), RleRun { val: 'y', len: 2 })));
    assert_eq!(zip_next(&mut a, &mut b, 100), Some((range(4, 5), RleRun { val: 'y', len: 1 })));
    assert_eq!(a.next_ctx(1), Some(range(10, 11)));
    assert_eq!(zip_next(&mut a, &mut b, 100), Some((range(11, 12), RleRun { val: 'y', len: 1 })));
    assert_eq!(zip_next(&mut a, &mut b, 100), None);
    assert_eq!(b.next(100), Some(RleRun { val: 'y', len: 6 }));
    assert_eq!(b.next(100), None);
    assert_eq!(b.peek(), None);
}

#[test]
fn push_leb_appends_encodings() {
    let mut out = vec![9u8];
    push_leb_u32(&mut out, 300);
    push_leb_u64(&mut out, 0);
    push_leb_usize(&mut out, 128);
    assert_eq!(out, vec![9, 0xAC, 0x02, 0x00, 0x80, 0x01]);
    let mut out = Vec::new();
    push_leb_str(&mut out, "h\u{e9}!");
    assert_eq!(out, vec![4, b'h', 0xc3, 0xa9, b'!']);
    let mut out = Vec::new();
    push_u32_le(&mut out, 0x0403_0201);
    assert_eq!(out, vec![1, 2, 3, 4]);
    let mut out = Vec::new();
    write_leb_bit_run(RleRun { val: true, len: 3 }, &mut out);
    write_leb_bit_run(RleRun { val: false, len: 64 }, &mut out);
    assert_eq!(out, vec![7, 0x80, 0x01]);
}

#[test]
fn chunks_round_trip() {
    let mut out = Vec::new();
    push_leb_chunk(&mut out, ListChunkType::Content, b"hello");
    push_leb_chunk_header(&mut out, ListChunkType::Crc, 4);
    push_u32_le(&mut out, 0xdead_beef);
    assert_eq!(out[..2], [13, 5]);
    let first = read_leb_chunk(&out).unwrap();
    assert_eq!(first, ChunkHeader { chunk_type: ListChunkType::Content, start: 2, end: 7 });
    assert_eq!(&out[first.start..first.end], b"hello");
    let second = read_leb_chunk(&out[first.end..]).unwrap();
    assert_eq!(second, ChunkHeader { chunk_type: ListChunkType::Crc, start: 2, end: 6 });
}

#[test]
fn bad_chunks_are_refused() {
    assert_eq!(read_leb_chunk(&[]), Err(ChunkError::InvalidVarint));
    assert_eq!(read_leb_chunk(&[13]), Err(ChunkError::InvalidVarint));
    assert_eq!(read_leb_chunk(&[13, 0x80]), Err(ChunkError::InvalidVarint));
    assert_eq!(read_leb_chunk(&[2, 0]), Err(ChunkError::UnexpectedChunk));
    assert_eq!(read_leb_chunk(&[13, 3, 1, 2]), Err(ChunkError::TruncatedChunk));
    assert!(read_leb_chunk(&[13, 3, 1, 2, 3]).is_ok());
    for t in [
        ListChunkType::FileInfo,
        ListChunkType::AgentNames,
        ListChunkType::Version,
        ListChunkType::Content,
        ListChunkType::Operations,
        ListChunkType::CausalGraph,
        ListChunkType::Crc,
    ] {
        assert_eq!(ListChunkType::from_code(t.code()), Some(t));
    }
    assert_eq!(ListChunkType::from_code(0), None);
}

#[test]
fn merger_joins_runs() {
    let mut out = Vec::new();
    let mut m: Merger<DTRange> = Merger::new();
    m.push2(range(0, 2), &mut out);
    m.push2(range(2, 5), &mut out);
    assert!(out.is_empty());
    m.push2(range(7, 8), &mut out);
    assert_eq!(out, vec![range(0, 5)]);
    m.flush2(&mut out);
    assert_eq!(out, vec![range(0, 5), range(7, 8)]);

    let mut m: Merger<DTRange> = Merger::new();
    assert_eq!(m.push(range(0, 1)), None);
    assert_eq!(m.push(range(1, 2)), None);
    assert_eq!(m.push(range(5, 6)), Some(range(0, 2)));
    assert_eq!(m.flush(), Some(range(5, 6)));
    let m: Merger<DTRange> = Merger::new();
    assert_eq!(m.flush(), None);
}
