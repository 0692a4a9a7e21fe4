use eui_client::driver::{Chunked, FileWrite};
use eui_client::save::{chunk, Save};

const MAX: u64 = 10;

fn open() -> Save {
    Save { token: 7, seq: 0, written: 0 }
}

#[test]
fn chunks_in_order_are_written_until_the_last() {
    let (s, w) = chunk(open(), 0, Chunked::More, vec![1, 2, 3], MAX);
    assert_eq!(s, Some(Save { token: 7, seq: 1, written: 3 }));
    assert_eq!(w, FileWrite { token: 7, flag: Chunked::More, bytes: vec![1, 2, 3] });
    let (s, w) = chunk(s.unwrap(), 1, Chunked::Last, vec![4], MAX);
    assert_eq!(s, None);
    assert_eq!(w, FileWrite { token: 7, flag: Chunked::Last, bytes: vec![4] });
}

#[test]
fn a_gap_an_abort_or_too_much_ends_the_save() {
    let (s, w) = chunk(open(), 1, Chunked::More, vec![1], MAX);
    assert_eq!(s, None);
    assert_eq!(w, FileWrite { token: 7, flag: Chunked::Abort, bytes: b"the server sent the chunks out of order".to_vec() });
    let (s, w) = chunk(open(), 0, Chunked::Abort, b"disk full".to_vec(), MAX);
    assert_eq!(s, None);
    assert_eq!(w, FileWrite { token: 7, flag: Chunked::Abort, bytes: b"disk full".to_vec() });
    let (s, w) = chunk(Save { token: 7, seq: 2, written: 8 }, 2, Chunked::More, vec![0; 3], MAX);
    assert_eq!(s, None);
    assert_eq!(w, FileWrite { token: 7, flag: Chunked::Abort, bytes: b"more than the 10 bytes one save may write".to_vec() });
    // Exactly the ceiling is allowed.
    let (s, _) = chunk(Save { token: 7, seq: 2, written: 8 }, 2, Chunked::More, vec![0; 2], MAX);
    assert_eq!(s, Some(Save { token: 7, seq: 3, written: 10 }));
}
