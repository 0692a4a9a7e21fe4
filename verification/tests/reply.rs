use eui_client::access::{AccessNode, AccessSnapshot, AccessState, Checked};
use eui_client::drawlist::{Backdrop, DrawList, Run, Scroller};
use eui_client::driver::{Chunked, FileAsk, FileWant, FileWrite, PickSource};
use eui_client::quad::Quad;
use eui_client::reply::{Payload, Reply, Status};

fn b(v: f32) -> u32 {
    v.to_bits()
}

fn b4(v: [f32; 4]) -> [u32; 4] {
    v.map(f32::to_bits)
}

fn status() -> Status {
    Status {
        outbound: vec![vec![1], vec![2, 3]],
        needs_redraw: true,
        closed: Some("x".into()),
        ime: Some(b4([1.0, 2.0, 3.0, 4.0])),
        clipboard: Some("c".into()),
        next_due_ms: Some(16),
        cursor: 1,
        audio: true,
        video: false,
        files: vec![
            FileAsk { token: 3, node: 9, want: FileWant::Open { accept: "csv".into(), multiple: true, max: 1 << 20, source: PickSource::Held } },
            FileAsk { token: 4, node: 10, want: FileWant::Save { name: "export.csv".into() } },
        ],
        writes: vec![FileWrite { token: 4, flag: Chunked::Last, bytes: vec![7, 7, 7] }],
    }
}

fn list() -> DrawList {
    DrawList {
        quads: vec![Quad { rect: b4([1.0; 4]), params: b4([2.0; 4]), fill: b4([3.0; 4]), stroke: b4([4.0; 4]), uv: b4([5.0; 4]), extra: b4([6.0; 4]), spin: [0; 4], from: [1, 2, 3, 4, 5, 65535, 7, 8] }],
        runs: vec![Run { clip: 0, chain: 0, first: 0, count: 1 }],
        clips: vec![[0, 0, 10, 10]],
        clear: b4([0.5; 4]),
        wants_frame: true,
        gpu_only: true,
        repeat_until_ms: 250,
        serial: 0x1234_5678_9abc,
        cpu_bound: false,
        scrollers: vec![Scroller { from: [b(0.0), b(-40.0)], to: [b(0.0), b(0.0)], t0: b(-0.05), dur: b(0.1), curve: 2, pad: 0 }],
        backdrop: None,
    }
}

fn plain_state() -> AccessState {
    AccessState {
        description: String::new(),
        checked: None,
        expanded: None,
        selected: None,
        disabled: false,
        read_only: false,
        required: false,
        invalid: false,
        busy: false,
        modal: false,
        value_now: None,
        value_min: None,
        value_max: None,
        pos_in_set: 0,
        set_size: 0,
        level: 0,
        orientation: 0,
        live: 0,
    }
}

fn snapshot() -> AccessSnapshot {
    AccessSnapshot {
        nodes: vec![
            AccessNode { id: 1, role: 1, bounds: b4([1.0, 2.0, 3.0, 4.0]), label: "Go".into(), value: String::new(), click: true, focus: true, children: vec![], state: plain_state() },
            AccessNode { id: 0, role: 0, bounds: [0; 4], label: "EUI".into(), value: String::new(), click: false, focus: false, children: vec![1], state: plain_state() },
        ],
        focus: 1,
        scale: b(2.0),
    }
}

fn payloads() -> Vec<Payload> {
    vec![
        Payload::Nothing,
        Payload::Sandbox(Ok("ok".into())),
        Payload::Sandbox(Err("no".into())),
        Payload::Hello(vec![1, 2]),
        Payload::Assets(vec![[1; 32], [2; 32]]),
        Payload::Paint { list: list(), glyphs: vec![(2, 1, 2, vec![0, 1]), (2, 0, 1, vec![3, 4])], images: Some((0, 1, vec![7; 8192])) },
        Payload::Tick(true),
        Payload::Access(snapshot()),
        Payload::Pcm(vec![b(0.0), b(0.25), b(-0.5), b(1.0)]),
    ]
}

#[test]
fn replies_round_trip() {
    for payload in payloads() {
        let reply = Reply { status: status(), payload };
        let bytes = reply.encode();
        assert_eq!(Reply::decode(&bytes), Ok(reply));
    }
    assert!(Reply::decode(&[1, 2, 3]).is_err());
}

#[test]
fn a_full_state_a_backdrop_and_uploads_cross_too() {
    let mut st = plain_state();
    st.description = "slider".into();
    st.checked = Some(Checked::Mixed);
    st.expanded = Some(false);
    st.selected = Some(true);
    st.disabled = true;
    st.modal = true;
    st.value_now = Some(0);
    st.value_max = Some(b(100.0));
    st.pos_in_set = 2;
    st.set_size = 5;
    st.level = 1;
    st.orientation = 1;
    st.live = 2;
    let mut snap = snapshot();
    snap.nodes[0].state = st;
    let mut l = list();
    l.backdrop = Some(Backdrop { rect: [1, 2, 3, 4], first: 0, sigmas: vec![b(2.0), b(4.0)] });
    let empty = Status { outbound: vec![], needs_redraw: false, closed: None, ime: None, clipboard: None, next_due_ms: None, cursor: 0, audio: false, video: true, files: vec![], writes: vec![] };
    for payload in [Payload::Access(snap), Payload::Paint { list: l, glyphs: vec![], images: None }, Payload::Uploads(vec![9, 8, 7])] {
        let reply = Reply { status: Status { video: true, ..empty_like(&empty) }, payload };
        let bytes = reply.encode();
        assert_eq!(Reply::decode(&bytes), Ok(reply));
    }
}

fn empty_like(s: &Status) -> Status {
    Status { outbound: vec![], needs_redraw: s.needs_redraw, closed: None, ime: None, clipboard: None, next_due_ms: None, cursor: s.cursor, audio: s.audio, video: s.video, files: vec![], writes: vec![] }
}

#[test]
fn a_reply_that_is_not_one_is_refused() {
    let reply = Reply { status: status(), payload: Payload::Tick(false) };
    let mut bytes = reply.encode();
    bytes.push(0);
    assert!(Reply::decode(&bytes).is_err(), "trailing bytes");
    let bytes = reply.encode();
    assert!(Reply::decode(&bytes[..bytes.len() - 1]).is_err(), "truncated");
}
