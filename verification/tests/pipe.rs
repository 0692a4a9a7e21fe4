use eui_client::drawlist::{DrawList, Run};
use eui_client::driver::{Chunked, FileAsk, FileWant, FileWrite, Input, ThemeMode};
use eui_client::pipe::{keep, read_message, write_message, Repeat, MAX_REPLY};
use eui_client::quad::Quad;
use eui_client::reply::{Payload, Reply, Status};
use eui_client::worker::Request;

fn b4(v: [f32; 4]) -> [u32; 4] {
    v.map(f32::to_bits)
}

fn list(gpu_only: bool) -> DrawList {
    DrawList {
        quads: vec![Quad { rect: b4([1.0; 4]), params: b4([8.0; 4]), fill: b4([3.0; 4]), stroke: b4([4.0; 4]), uv: b4([5.0; 4]), extra: [0; 4], spin: b4([2.0, 3.0, 0.0, 0.0]), from: [0; 8] }],
        runs: vec![Run { clip: 0, chain: 0, first: 0, count: 1 }],
        clips: vec![[0, 0, 10, 10]],
        clear: b4([0.5; 4]),
        wants_frame: true,
        gpu_only,
        repeat_until_ms: u32::MAX,
        serial: 7,
        cpu_bound: false,
        scrollers: Vec::new(),
        backdrop: None,
    }
}

fn status(closed: Option<&str>) -> Status {
    Status {
        outbound: vec![vec![1, 2]],
        needs_redraw: true,
        closed: closed.map(str::to_owned),
        ime: Some(b4([1.0; 4])),
        clipboard: Some("copied".into()),
        next_due_ms: Some(16),
        cursor: 0,
        audio: false,
        video: false,
        files: Vec::new(),
        writes: Vec::new(),
    }
}

fn paint(l: DrawList, st: Status) -> Reply {
    Reply { status: st, payload: Payload::Paint { list: l, glyphs: vec![(2, 1, 2, vec![0, 1])], images: Some((0, 1, vec![7; 8])) } }
}

/// The window may draw a repeatable frame again, but it must not *do* it
/// again: the frames bound for the server, the clipboard hand-off, the
/// IME rect and the atlas rows all answer something that happened once.
#[test]
fn a_repeated_frame_carries_the_list_and_nothing_that_happens_once() {
    let t0: u64 = 1_000_000;
    let repeat = Repeat::of(&paint(list(true), status(None)), t0).expect("a list the driver said may be drawn again");
    let again = repeat.answer(t0 + 5).expect("and it is, for as long as nothing reaches the driver");
    let Payload::Paint { list: kept, glyphs, images } = &again.payload else { panic!("still a paint") };
    assert_eq!(*kept, list(true), "the list itself is what gets drawn again");
    assert!(glyphs.is_empty() && images.is_none(), "the atlas rows already landed");
    assert!(again.status.outbound.is_empty(), "the server must not be told twice");
    assert!(again.status.clipboard.is_none(), "nor the clipboard written twice");
    assert!(again.status.ime.is_none());
    assert!(again.status.needs_redraw, "but a redraw is still wanted");
    assert_eq!(again.status.next_due_ms, Some(16), "and still due when it was");
    assert!(repeat.answer(t0 + 3_600_000).is_some(), "an hour on, still the same list: nothing has reached the driver");

    assert!(Repeat::of(&paint(list(false), status(None)), t0).is_none(), "anything else owed and the driver must be asked");
    assert!(Repeat::of(&paint(list(true), status(Some("gone"))), t0).is_none(), "a closed session is not repeated");
    assert!(Repeat::of(&Reply { status: status(None), payload: Payload::Nothing }, t0).is_none(), "and only a paint is");

    // A tick is the clock, which the window keeps itself while it
    // repeats; anything else may change what the tree paints.
    assert!(Repeat::survives(&Request::Tick), "a tick does not evict the list");
    assert!(Repeat::survives(&Request::Paint(1, 1)));
    assert!(!Repeat::survives(&Request::Input(Input::PointerMove(1.0f32.to_bits(), 1.0f32.to_bits()))), "an input does");
    assert!(!Repeat::survives(&Request::Frame(vec![])), "so does a frame");
    assert!(!Repeat::survives(&Request::Input(Input::Mode(ThemeMode::Light))));

    // A list with a timer in it runs out: due no later than that, and
    // then the driver is asked.
    let timed = DrawList { repeat_until_ms: 100, ..list(true) };
    let repeat = Repeat::of(&paint(timed, status(None)), t0).expect("repeatable until the timer");
    assert_eq!(repeat.until(), Some(t0 + 100));
    let late = repeat.answer(t0 + 90).expect("still on");
    assert_eq!(late.status.next_due_ms, Some(10), "due when the list runs out, not a cadence later");
    assert!(repeat.answer(t0 + 100).is_none(), "and then it is the driver's turn");
}

#[test]
fn a_status_keeps_what_the_window_has_not_collected() {
    let mut held = status(None);
    held.files = vec![FileAsk { token: 1, node: 1, want: FileWant::Save { name: "a".into() } }];
    held.writes = vec![FileWrite { token: 1, flag: Chunked::More, bytes: vec![1] }];
    let mut incoming = status(None);
    incoming.clipboard = None;
    incoming.needs_redraw = false;
    incoming.writes = vec![FileWrite { token: 1, flag: Chunked::Last, bytes: vec![2] }];
    let kept = keep(held, incoming);
    assert_eq!(kept.files.len(), 1);
    assert_eq!(kept.writes.iter().map(|w| w.bytes[0]).collect::<Vec<_>>(), vec![1, 2]);
    assert_eq!(kept.clipboard.as_deref(), Some("copied"), "a hand-off waits for the window");
    assert!(!kept.needs_redraw, "the rest is the driver's state now");
}

#[test]
fn a_message_is_its_length_then_itself() {
    let framed = write_message(&[9, 8, 7]).unwrap();
    assert_eq!(framed, vec![3, 0, 0, 0, 9, 8, 7]);
    assert_eq!(read_message([3, 0, 0, 0], MAX_REPLY), Some(3));
    assert_eq!(read_message([0, 0, 0, 5], MAX_REPLY), None, "past the ceiling");
    assert_eq!(read_message([0, 1, 0, 0], 255), None);
    assert_eq!(read_message([255, 0, 0, 0], 255), Some(255));
}
