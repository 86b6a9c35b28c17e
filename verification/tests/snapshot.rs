use diamond_types::encoding::encode_tools::{
    push_leb_chunk, push_leb_str, push_leb_usize, push_u32_le, ListChunkType,
};
use diamond_types::encoding::varint::ParseError;
use diamond_types::list::encoding::{check_magic, checksum, decode, push_magic};
use diamond_types::list::oplog::OpLog;

fn sample() -> OpLog {
    let mut a = OpLog::new();
    let seph = a.get_or_create_agent_id("seph");
    let mike = a.get_or_create_agent_id("mike");
    a.push_insert_at(seph, &[], 0, "Aa");
    a.push_insert_at(mike, &[], 0, "b");
    a.push_delete_at(seph, &[1, 2], 0, 2);
    a
}

fn longer() -> OpLog {
    let mut a = OpLog::new();
    let x = a.get_or_create_agent_id("x\u{e9}");
    let y = a.get_or_create_agent_id("y");
    a.get_or_create_agent_id("idle");
    a.push_insert(x, 0, "hello w\u{f6}rld \u{1f600}");
    a.push_delete(y, 2, 3);
    a.push_insert_at(x, &[12], 13, "!!");
    a.push_delete_at(y, &[15], 11, 1);
    a.push_delete_at(y, &[18], 10, 1);
    a.push_insert_at(x, &[17, 19], 0, ">");
    a.push_insert(y, 1, "> ");
    a
}

fn round_trip(log: &OpLog) -> OpLog {
    assert!(log.is_encodable());
    let bytes = log.encode();
    assert!(check_magic(&bytes));
    let read = decode(&bytes).expect("what was written can be read");
    assert!(log.eq(&read));
    assert!(read.eq(log));
    assert_eq!(read.len(), log.len());
    assert_eq!(read.ins_content, log.ins_content);
    assert_eq!(read.frontier().as_slice(), log.frontier().as_slice());
    // Written out again, the log gives the same file.
    assert_eq!(read.encode(), bytes);
    read
}

#[test]
fn snapshot_round_trip() {
    round_trip(&OpLog::new());
    round_trip(&sample());
    let read = round_trip(&longer());
    assert_eq!(read.client_data.len(), 3);
    assert_eq!(read.client_data[0].name, "x\u{e9}");
    assert_eq!(read.client_data[2].next_seq, 0);
    assert_eq!(read.history.entries.0.len(), longer().history.entries.0.len());

    // The same history pushed in another order reads back as an equal
    // log.
    let mut b = OpLog::new();
    b.get_or_create_agent_id("mike");
    b.get_or_create_agent_id("seph");
    b.push_insert_at(0, &[], 0, "b");
    b.push_insert_at(1, &[], 0, "Aa");
    b.push_delete_at(1, &[0, 2], 0, 2);
    let read_a = round_trip(&sample());
    let read_b = round_trip(&b);
    assert!(read_a.eq(&read_b));
}

#[test]
fn the_empty_log_as_a_file() {
    let bytes = OpLog::new().encode();
    let mut expected = b"DMNDTYPS".to_vec();
    // No agents; no versions; no runs of operations; no characters.
    expected.extend_from_slice(&[3, 1, 0, 23, 1, 0, 20, 1, 0, 13, 1, 0]);
    let crc = checksum(&expected);
    expected.extend_from_slice(&[100, 4]);
    expected.extend_from_slice(&crc.to_le_bytes());
    assert_eq!(bytes, expected);
}

#[test]
fn a_small_log_as_a_file() {
    let mut log = OpLog::new();
    let a = log.get_or_create_agent_id("ab");
    log.push_insert(a, 5, "xy");
    log.push_delete(a, 6, 1);
    let bytes = log.encode();
    let mut expected = Vec::new();
    push_magic(&mut expected);
    // One agent, "ab".
    expected.extend_from_slice(&[3, 4, 1, 2, b'a', b'b']);
    // Three versions in one piece: agent 0 from number 0 on, no parents.
    expected.extend_from_slice(&[23, 5, 3, 0, 0, 3, 0]);
    // Two runs: an insertion of two known characters forwards at 5, the
    // characters from index 0 on; a deletion of one item forwards at 6.
    expected.extend_from_slice(&[20, 6, 2, 2 * 8 + 4 + 2, 10, 0, 8 + 2 + 1, 2]);
    // The characters.
    expected.extend_from_slice(&[13, 3, 2, b'x', b'y']);
    let crc = checksum(&expected);
    expected.extend_from_slice(&[100, 4]);
    expected.extend_from_slice(&crc.to_le_bytes());
    assert_eq!(bytes, expected);
    assert!(decode(&expected).unwrap().eq(&log));
}

#[test]
fn checksum_of_known_bytes() {
    assert_eq!(checksum(b""), 0);
    assert_eq!(checksum(b"123456789"), 0xcbf4_3926);
    assert_eq!(checksum(b"a"), 0xe8b7_be43);
}

/// A file with the given chunks and a right checksum.
fn file(agents: &[u8], graph: &[u8], ops: &[u8], content: &[u8]) -> Vec<u8> {
    let mut out = Vec::new();
    push_magic(&mut out);
    push_leb_chunk(&mut out, ListChunkType::AgentNames, agents);
    push_leb_chunk(&mut out, ListChunkType::CausalGraph, graph);
    push_leb_chunk(&mut out, ListChunkType::Operations, ops);
    push_leb_chunk(&mut out, ListChunkType::Content, content);
    let crc = checksum(&out);
    let mut crc_bytes = Vec::new();
    push_u32_le(&mut crc_bytes, crc);
    push_leb_chunk(&mut out, ListChunkType::Crc, &crc_bytes);
    out
}

fn one_agent() -> Vec<u8> {
    let mut agents = Vec::new();
    push_leb_usize(&mut agents, 1);
    push_leb_str(&mut agents, "ab");
    agents
}

fn error_of(bytes: &[u8]) -> ParseError {
    match decode(bytes) {
        Ok(_) => panic!("the file should be refused"),
        Err(e) => e,
    }
}

#[test]
fn files_that_are_refused() {
    let good = file(&one_agent(), &[3, 0, 0, 3, 0], &[2, 22, 10, 0, 11, 2], &[2, b'x', b'y']);
    assert!(decode(&good).is_ok());

    // The magic number.
    assert_eq!(error_of(b""), ParseError::BadMagic);
    assert_eq!(error_of(b"DMNDTYP"), ParseError::BadMagic);
    let mut bad = good.clone();
    bad[0] = b'X';
    assert_eq!(error_of(&bad), ParseError::BadMagic);

    // A file that ends early.
    assert_eq!(error_of(&good[..8]), ParseError::InvalidVarint);
    assert_eq!(error_of(&good[..9]), ParseError::InvalidVarint);
    assert_eq!(error_of(&good[..12]), ParseError::TruncatedChunk);
    assert_eq!(error_of(&good[..good.len() - 1]), ParseError::TruncatedChunk);
    assert_eq!(error_of(&good[..good.len() - 6]), ParseError::InvalidVarint);

    // A chunk of another kind, or of no kind.
    let mut bad = good.clone();
    bad[8] = 23;
    assert_eq!(error_of(&bad), ParseError::UnexpectedChunk);
    bad[8] = 2;
    assert_eq!(error_of(&bad), ParseError::UnexpectedChunk);

    // A changed byte.
    let mut bad = good.clone();
    let at = bad.len() - 8;
    bad[at] = b'z';
    assert_eq!(error_of(&bad), ParseError::ChecksumMismatch);
    let mut bad = good.clone();
    let at = bad.len() - 1;
    bad[at] ^= 1;
    assert_eq!(error_of(&bad), ParseError::ChecksumMismatch);

    // Bytes behind the checksum.
    let mut bad = good.clone();
    bad.push(0);
    assert_eq!(error_of(&bad), ParseError::IntegrityError);

    // An agent that the file does not define.
    let bad = file(&one_agent(), &[3, 1, 0, 3, 0], &[2, 22, 10, 0, 11, 2], &[2, b'x', b'y']);
    assert_eq!(error_of(&bad), ParseError::UnknownAgent);
    let bad = file(
        &one_agent(),
        &[3, 0, 0, 2, 0, 0, 2, 1, 1, 1, 0],
        &[2, 22, 10, 0, 11, 2],
        &[2, b'x', b'y'],
    );
    assert_eq!(error_of(&bad), ParseError::UnknownAgent);

    // A parent that is not known yet.
    let bad = file(
        &one_agent(),
        &[3, 0, 0, 2, 0, 0, 2, 1, 1, 0, 2],
        &[2, 22, 10, 0, 11, 2],
        &[2, b'x', b'y'],
    );
    assert_eq!(error_of(&bad), ParseError::MissingParent);

    // A number that is no number.
    let bad = file(&[0x80], &[0], &[0], &[0]);
    assert_eq!(error_of(&bad), ParseError::InvalidVarint);

    // What is no consistent log: a name twice; a number of the agent that
    // does not go on; a piece without versions; more versions than
    // operations; a character that is none.
    let mut twice = Vec::new();
    push_leb_usize(&mut twice, 2);
    push_leb_str(&mut twice, "ab");
    push_leb_str(&mut twice, "ab");
    assert_eq!(error_of(&file(&twice, &[0], &[0], &[0])), ParseError::IntegrityError);
    let bad = file(&one_agent(), &[3, 0, 1, 3, 0], &[2, 22, 10, 0, 11, 2], &[2, b'x', b'y']);
    assert_eq!(error_of(&bad), ParseError::IntegrityError);
    let bad = file(&one_agent(), &[3, 0, 0, 0, 0], &[2, 22, 10, 0, 11, 2], &[2, b'x', b'y']);
    assert_eq!(error_of(&bad), ParseError::IntegrityError);
    let bad = file(&one_agent(), &[3, 0, 0, 3, 0], &[1, 22, 10, 0], &[2, b'x', b'y']);
    assert_eq!(error_of(&bad), ParseError::IntegrityError);
    let bad = file(&one_agent(), &[0], &[0], &[1, 0x80, 0xb0, 0x03]);
    assert_eq!(error_of(&bad), ParseError::IntegrityError);
    // A name that is no UTF-8.
    let bad = file(&[1, 1, 0xff], &[0], &[0], &[0]);
    assert_eq!(error_of(&bad), ParseError::IntegrityError);
}

#[test]
fn operations_and_versions_have_to_match() {
    // Three versions, and runs of two and of one operation.
    let good = file(&one_agent(), &[3, 0, 0, 3, 0], &[2, 22, 10, 0, 11, 2], &[2, b'x', b'y']);
    let log = decode(&good).expect("a log");
    assert_eq!(log.len(), 3);
    // Two versions, and three operations.
    let bad = file(&one_agent(), &[2, 0, 0, 2, 0], &[2, 22, 10, 0, 11, 2], &[2, b'x', b'y']);
    assert_eq!(error_of(&bad), ParseError::IntegrityError);
    // Three versions in two pieces, the second behind the first.
    let two = file(
        &one_agent(),
        &[3, 0, 0, 2, 0, 0, 2, 1, 1, 0, 1],
        &[2, 22, 10, 0, 11, 2],
        &[2, b'x', b'y'],
    );
    // It holds the same log, though it is not written as the log is
    // written.
    let same = decode(&two).expect("a log");
    assert!(same.eq(&log));
    assert_eq!(same.encode(), good);
    // A run of operations that is cut short.
    let bad = file(&one_agent(), &[3, 0, 0, 3, 0], &[2, 22, 10, 0, 11], &[2, b'x', b'y']);
    assert_eq!(error_of(&bad), ParseError::InvalidVarint);
    // Bytes behind the operations.
    let bad = file(&one_agent(), &[3, 0, 0, 3, 0], &[2, 22, 10, 0, 11, 2, 0], &[2, b'x', b'y']);
    assert_eq!(error_of(&bad), ParseError::IntegrityError);
}
