use eui_client::drawlist::{DrawList, Run};
use eui_client::driver::{Chunked, FileAsk, FileWant, FileWrite, Input, ThemeMode};
use eui_client::link::{Link, Step};
use eui_client::pipe::write_message;
use eui_client::quad::Quad;
use eui_client::reply::{Payload, Reply, Status};
use eui_client::worker::Request;

fn b4(v: [f32; 4]) -> [u32; 4] {
    v.map(f32::to_bits)
}

fn list(gpu_only: bool, repeat_until_ms: u32) -> DrawList {
    DrawList {
        quads: vec![Quad { rect: b4([1.0; 4]), params: b4([8.0; 4]), fill: b4([3.0; 4]), stroke: b4([4.0; 4]), uv: b4([5.0; 4]), extra: [0; 4], spin: b4([2.0, 3.0, 0.0, 0.0]), from: [0; 8] }],
        runs: vec![Run { clip: 0, chain: 0, first: 0, count: 1 }],
        clips: vec![[0, 0, 10, 10]],
        clear: b4([0.5; 4]),
        wants_frame: true,
        gpu_only,
        repeat_until_ms,
        serial: 7,
        cpu_bound: false,
        scrollers: Vec::new(),
        backdrop: None,
    }
}

fn status() -> Status {
    Status {
        outbound: vec![vec![1, 2]],
        needs_redraw: true,
        closed: None,
        ime: None,
        clipboard: Some("copied".into()),
        next_due_ms: Some(16),
        cursor: 0,
        audio: false,
        video: false,
        files: Vec::new(),
        writes: Vec::new(),
    }
}

fn sent(step: Step) -> Vec<u8> {
    match step {
        Step::Send(v) => v,
        _ => panic!("expected the pipe"),
    }
}

#[test]
fn a_request_goes_down_the_pipe_framed() {
    let mut link = Link::new(0);
    let req = Request::Paint(1, 2);
    let framed = sent(link.ask(&req, 10));
    assert_eq!(framed, write_message(&req.encode()).unwrap());
}

#[test]
fn a_paint_the_driver_may_repeat_is_answered_without_the_pipe() {
    let mut link = Link::new(0);
    let req = Request::Paint(1, 1);
    let body = req.encode();
    let _ = sent(link.ask(&req, 100));
    let reply = Reply { status: status(), payload: Payload::Paint { list: list(true, 1000), glyphs: vec![], images: None } };
    let bytes = reply.encode();
    let got = link.answered(body.len(), &bytes, 100).unwrap();
    assert_eq!(got, reply);
    assert_eq!(link.traffic(), (body.len() as u64 + 4, bytes.len() as u64 + 4));
    assert_eq!(link.status().clipboard.as_deref(), Some("copied"));
    assert_eq!(link.next_frame_at(500), Some(116));

    // The next paint comes from what was kept, and the pipe is not touched.
    let again = match link.ask(&req, 200) {
        Step::Answered(r) => r,
        _ => panic!("the last list again"),
    };
    let Payload::Paint { list: l, .. } = &again.payload else { panic!("a paint") };
    assert_eq!(*l, list(true, 1000));
    assert!(again.status.outbound.is_empty(), "the server must not be told twice");
    // The clipboard the window has not collected stays.
    assert_eq!(link.status().clipboard.as_deref(), Some("copied"));
    assert_eq!(link.traffic(), (body.len() as u64 + 4, bytes.len() as u64 + 4));

    // Past the list's time, the driver is asked again.
    let _ = sent(link.ask(&req, 1100));
}

#[test]
fn an_input_forgets_the_kept_list() {
    let mut link = Link::new(0);
    let reply = Reply { status: status(), payload: Payload::Paint { list: list(true, u32::MAX), glyphs: vec![], images: None } };
    link.answered(0, &reply.encode(), 5).unwrap();
    assert!(matches!(link.ask(&Request::Paint(1, 1), 6), Step::Answered(_)));
    assert!(matches!(link.ask(&Request::Tick, 7), Step::Send(_)));
    assert!(matches!(link.ask(&Request::Paint(1, 1), 8), Step::Answered(_)), "a tick does not evict the list");
    let _ = sent(link.ask(&Request::Input(Input::Mode(ThemeMode::Dark)), 9));
    assert!(matches!(link.ask(&Request::Paint(1, 1), 10), Step::Send(_)), "an input does");
}

#[test]
fn a_reply_that_is_not_one_counts_and_changes_nothing_else() {
    let mut link = Link::new(0);
    assert!(link.answered(3, &[9, 9], 1).is_err());
    assert_eq!(link.traffic(), (7, 6));
    assert_eq!(link.status().next_due_ms, None);
}

#[test]
fn a_worker_that_stopped_answering_is_asked_nothing_again() {
    let mut link = Link::new(0);
    link.fail("the worker exited: signal 9".to_string());
    assert_eq!(link.dead().as_deref(), Some("the worker exited: signal 9"));
    assert_eq!(link.status().closed.as_deref(), Some("the worker exited: signal 9"));
    assert!(!link.status().needs_redraw);
    assert!(matches!(link.ask(&Request::Paint(1, 1), 5), Step::Dead));
    assert!(matches!(link.ask(&Request::Hello, 5), Step::Dead));
    // Whenever it is asked.
    assert!(matches!(link.ask(&Request::Tick, u64::MAX), Step::Dead));
    assert_eq!(link.status().next_due_ms, None);
    assert_eq!(link.traffic(), (0, 0), "nothing more crosses the pipe");
}

#[test]
fn what_the_window_has_not_collected_survives_until_taken() {
    let mut link = Link::new(0);
    let ask = |token: u32| FileAsk { token, node: 2, want: FileWant::Save { name: "a.csv".into() } };
    let mut first = status();
    first.files = vec![ask(1)];
    first.writes = vec![FileWrite { token: 1, flag: Chunked::More, bytes: vec![1, 2] }];
    link.answered(0, &Reply { status: first, payload: Payload::Nothing }.encode(), 1).unwrap();
    let mut second = status();
    second.clipboard = None;
    second.files = vec![ask(3)];
    link.answered(0, &Reply { status: second, payload: Payload::Nothing }.encode(), 2).unwrap();
    assert_eq!(link.take_clipboard().as_deref(), Some("copied"));
    assert_eq!(link.take_clipboard(), None);
    assert_eq!(link.take_file_asks(), vec![ask(1), ask(3)]);
    assert!(link.take_file_asks().is_empty());
    assert_eq!(link.take_writes(), vec![FileWrite { token: 1, flag: Chunked::More, bytes: vec![1, 2] }]);
    assert!(link.take_writes().is_empty());
}
