use eui_client::transport::{answer_view, check_url, view_of, Fetched, TransportError, ViewError, VIEW_MEDIA_TYPE};

#[test]
fn a_view_is_a_welcome_then_batches_named_by_their_hash() {
    let frames = vec![vec![0x02, 1], vec![0x03, 2, 3], vec![0x03, 4]];
    let v = view_of(frames.clone(), Some("\"e\"".into())).unwrap();
    assert_eq!(v.tree, *blake3::hash(&[0x03, 2, 3, 0x03, 4]).as_bytes());
    let mut h = blake3::Hasher::new();
    h.update(&[0x03, 2, 3]);
    h.update(&[0x03, 4]);
    assert_eq!(v.tree, *h.finalize().as_bytes());
    assert_eq!(v.frames, frames);
    assert_eq!(v.etag.as_deref(), Some("\"e\""));
}

#[test]
fn anything_else_is_refused() {
    let refused = |frames: Vec<Vec<u8>>| matches!(view_of(frames, None), Err(ViewError::Refused(_)));
    assert!(refused(vec![]));
    assert!(refused(vec![vec![0x02]]), "a Welcome alone has no tree");
    assert!(refused(vec![vec![0x03], vec![0x03]]), "no Welcome");
    assert!(refused(vec![vec![0x02], vec![0x03], vec![0x05]]), "not a batch");
    assert!(refused(vec![vec![0x02], vec![]]), "an empty frame has no kind");
    assert_eq!(ViewError::NotOffered.message(), "this component is not served as a one-shot render");
}

fn body_of(content_type: Option<&str>, frames: &[Vec<u8>]) -> Fetched {
    Fetched::Body { content_type: content_type.map(str::to_owned), body: frames.concat(), etag: Some("\"e\"".into()) }
}

fn good() -> Vec<Vec<u8>> {
    vec![vec![0x02, 1], vec![0x03, 2]]
}

fn refusal(r: Result<eui_client::transport::Rendered, ViewError>) -> String {
    match r {
        Err(ViewError::Refused(why)) => why,
        _ => panic!("not refused"),
    }
}

#[test]
fn a_missing_view_is_not_offered_and_a_failure_is_refused() {
    assert!(matches!(answer_view(Fetched::NotFound, vec![], None, 100, 10), Err(ViewError::NotOffered)));
    assert_eq!(refusal(answer_view(Fetched::Failed("timed out".into()), vec![], None, 100, 10)), "timed out");
}

#[test]
fn a_body_is_held_to_its_type_its_size_and_its_frames() {
    let media = Some(VIEW_MEDIA_TYPE);
    assert_eq!(
        refusal(answer_view(body_of(Some("text/html"), &good()), good(), None, 100, 10)),
        "answered text/html rather than application/vnd.eui.frames"
    );
    assert_eq!(
        refusal(answer_view(body_of(None, &good()), good(), None, 100, 10)),
        "answered nothing rather than application/vnd.eui.frames"
    );
    let long = vec![vec![0x02], vec![0x03; 100]];
    assert_eq!(refusal(answer_view(body_of(media, &long), long.clone(), None, 100, 10)), "101 bytes is past the ceiling for one render");
    assert_eq!(refusal(answer_view(body_of(media, &good()), good(), None, 100, 1)), "more than 1 frames");
    let torn = Fetched::Body { content_type: Some(VIEW_MEDIA_TYPE.into()), body: vec![0x02, 1, 0x03], etag: None };
    assert_eq!(
        refusal(answer_view(torn, vec![vec![0x02, 1]], Some("the body ends inside a frame".into()), 100, 10)),
        "the body ends inside a frame"
    );
    let v = answer_view(body_of(media, &good()), good(), None, 100, 10).unwrap();
    assert_eq!(v.frames, good());
    assert_eq!(v.frames.concat(), vec![0x02, 1, 0x03, 2], "the frames are the body");
    assert_eq!(v.tree, *blake3::hash(&[0x03, 2]).as_bytes());
    assert_eq!(v.etag.as_deref(), Some("\"e\""));
}

#[test]
fn plain_sockets_are_refused_outside_an_allowed_loopback() {
    assert!(check_url("wss://demo.example/_eui/session", false, false, false).is_ok());
    match check_url("ws://demo.example/s", false, true, true) {
        Err(TransportError::Insecure(u)) => assert_eq!(u, "ws://demo.example/s"),
        _ => panic!("plain ws:// off loopback is refused"),
    }
    assert!(check_url("ws://127.0.0.1:8080/s", true, false, false).is_err(), "loopback alone is not enough");
    assert!(check_url("ws://127.0.0.1:8080/s", true, true, false).is_ok(), "the process's own server");
    assert!(check_url("ws://127.0.0.1:8080/s", true, false, true).is_ok(), "asked for by name");
}
