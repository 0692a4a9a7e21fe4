use eui_client::session::{next_frame_at, replay, tick, welcome, Greeted};

#[test]
fn a_welcome_of_a_version_this_client_does_not_speak_closes() {
    let s = [7u8; 16];
    assert_eq!(welcome(0, 3, false, &s, None, false), Greeted::Unsupported(0));
    assert_eq!(welcome(4, 3, false, &s, None, false), Greeted::Unsupported(4));
    assert_eq!(welcome(4, 3, false, &s, None, false).refusal(), Some((100, "unsupported version 4".to_string())));
}

#[test]
fn a_resumption_is_believed_only_of_the_session_offered() {
    let s = [7u8; 16];
    let t = [8u8; 16];
    assert_eq!(welcome(3, 3, true, &s, Some(&s), true), Greeted::Accepted);
    assert_eq!(welcome(3, 3, true, &s, Some(&t), true), Greeted::NotOffered);
    assert_eq!(welcome(3, 3, true, &s, None, false), Greeted::NotOffered);
    assert_eq!(
        Greeted::NotOffered.refusal(),
        Some((103, "resumed a session the client did not offer".to_string()))
    );
    assert_eq!(welcome(3, 3, false, &s, Some(&s), true), Greeted::StartOver);
    assert_eq!(welcome(1, 3, false, &s, None, false), Greeted::Accepted);
    assert_eq!(Greeted::Accepted.refusal(), None);
}

#[test]
fn a_replayed_batch_is_acked_again_and_not_applied() {
    assert_eq!(replay(5, 5), Some(5));
    assert_eq!(replay(3, 5), Some(5));
    assert_eq!(replay(6, 5), None);
}

#[test]
fn a_frame_is_due_when_the_earlier_deadline_comes() {
    assert_eq!(next_frame_at(Some(30), Some(20)), Some(20));
    assert_eq!(next_frame_at(None, None), None, "at rest nothing is due");
    assert_eq!(tick(Some(30), Some(20), 10), (false, Some(30)));
    // The viewport's deadline came; the transition's has not, and stays.
    assert_eq!(tick(Some(30), Some(20), 25), (true, Some(30)));
    // The transition's came: it is spent.
    assert_eq!(tick(Some(30), None, 30), (true, None));
    assert_eq!(tick(None, None, 99), (false, None));
}
