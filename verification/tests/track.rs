use eui_client::track::{moved, put, target, Handle, Track, TrackValue};

#[test]
fn a_value_lands_on_the_nearest_step_inside_the_ends() {
    let t = Track { min: 0, max: 100, step: 10 };
    assert_eq!(t.snap(44), 40);
    assert_eq!(t.snap(45), 50);
    assert_eq!(t.snap(-3), 0);
    assert_eq!(t.snap(200), 100);
    // An end off the steps is still reachable, and nothing passes it.
    let t = Track { min: 0, max: 10, step: 3 };
    assert_eq!(t.snap(10), 9);
    assert_eq!(t.snap(11), 9);
    // A track that runs backwards counts its steps from `min`.
    let t = Track { min: 10, max: 0, step: 3 };
    assert_eq!(t.snap(5), 4);
    // A step below one is one.
    let t = Track { min: 0, max: 5, step: 0 };
    assert_eq!(t.snap(3), 3);
}

#[test]
fn keys_move_a_handle_by_steps_and_pages() {
    let t = Track { min: 0, max: 100, step: 10 };
    assert_eq!(target(&t, 40, "ArrowRight"), Some(50));
    assert_eq!(target(&t, 40, "ArrowDown"), Some(30));
    assert_eq!(target(&t, 40, "PageUp"), Some(140));
    assert_eq!(target(&t, 40, "PageDown"), Some(-60));
    assert_eq!(target(&t, 40, "Home"), Some(0));
    assert_eq!(target(&t, 40, "End"), Some(100));
    assert_eq!(target(&t, 40, "Enter"), None);
    assert_eq!(target(&t, i64::MAX, "ArrowRight"), Some(i64::MAX));
}

#[test]
fn two_handles_never_pass_each_other() {
    let v = TrackValue { lo: 20, hi: Some(50) };
    assert_eq!(put(v, Handle::Lo, 70), TrackValue { lo: 50, hi: Some(50) });
    assert_eq!(put(v, Handle::Hi, 10), TrackValue { lo: 20, hi: Some(20) });
    assert_eq!(put(TrackValue { lo: 3, hi: None }, Handle::Hi, 9), TrackValue { lo: 9, hi: None });
    let t = Track { min: 0, max: 100, step: 10 };
    assert_eq!(moved(&t, v, Handle::Lo, "PageUp"), Some(TrackValue { lo: 50, hi: Some(50) }));
    assert_eq!(moved(&t, v, Handle::Hi, "ArrowLeft"), Some(TrackValue { lo: 20, hi: Some(40) }));
    assert_eq!(moved(&t, v, Handle::Lo, "Home"), Some(TrackValue { lo: 0, hi: Some(50) }));
    assert_eq!(moved(&t, v, Handle::Lo, "Tab"), None);
}
