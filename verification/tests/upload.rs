use eui_client::driver::Chunked;
use eui_client::upload::{accept_pick, failed, send, Transfer, Upload};

fn up(sent: u64, max: u64) -> Upload {
    Upload { node: 4, seq: 2, sent, max }
}

fn t(seq: u32, flag: Chunked, bytes: &[u8]) -> Transfer {
    Transfer { id: 9, seq, flag, bytes: bytes.to_vec() }
}

#[test]
fn bytes_go_in_numbered_chunks_the_last_one_marked() {
    let (next, out) = send(up(0, 100), 9, &[1, 2, 3, 4, 5, 6, 7], true, 3);
    assert_eq!(next, None);
    assert_eq!(out, vec![t(2, Chunked::More, &[1, 2, 3]), t(3, Chunked::More, &[4, 5, 6]), t(4, Chunked::Last, &[7])]);
    let (next, out) = send(up(10, 100), 9, &[1, 2, 3], false, 3);
    assert_eq!(next, Some(Upload { node: 4, seq: 3, sent: 13, max: 100 }));
    assert_eq!(out, vec![t(2, Chunked::More, &[1, 2, 3])]);
}

#[test]
fn no_bytes_still_say_the_file_ended() {
    let (next, out) = send(up(5, 100), 9, &[], true, 3);
    assert_eq!(next, None);
    assert_eq!(out, vec![t(2, Chunked::Last, &[])]);
}

#[test]
fn bytes_past_the_ceiling_end_the_upload() {
    let (next, out) = send(up(98, 100), 9, &[1, 2, 3], false, 3);
    assert_eq!(next, None);
    assert_eq!(out, vec![t(2, Chunked::Abort, b"more than the 100 bytes this one accepts")]);
}

#[test]
fn a_failure_is_told_in_few_enough_bytes() {
    assert_eq!(failed(9, "unreadable", 4), Transfer { id: 9, seq: 0, flag: Chunked::Abort, bytes: b"unre".to_vec() });
    assert_eq!(failed(9, "no", 4), Transfer { id: 9, seq: 0, flag: Chunked::Abort, bytes: b"no".to_vec() });
}

#[test]
fn a_file_larger_than_the_node_accepts_is_refused_at_once() {
    assert_eq!(accept_pick(9, 4, 100, 100), Ok(Upload { node: 4, seq: 0, sent: 0, max: 100 }));
    assert_eq!(
        accept_pick(9, 4, 101, 100),
        Err(Transfer { id: 9, seq: 0, flag: Chunked::Abort, bytes: b"file is 101 bytes; this one accepts 100".to_vec() })
    );
}
