use eui_client::field::{Edit, Keyed};

const SHIFT: u32 = 1;
const CTRL: u32 = 2;
const CMD: u32 = 8;

fn edit(value: &str, caret: usize, anchor: usize) -> Edit {
    Edit { value: value.into(), caret, anchor }
}

#[test]
fn typing_replaces_the_selection_and_the_caret_follows() {
    let mut e = edit("héllo", 1, 3);
    e.insert("ey");
    assert_eq!(e, edit("heyllo", 3, 3));
    e.insert("€");
    assert_eq!(e, edit("hey€llo", 6, 6));
}

#[test]
fn backspace_and_delete_take_whole_characters() {
    let mut e = edit("a€b", 4, 4);
    e.delete(false);
    assert_eq!(e, edit("ab", 1, 1));
    e.delete(true);
    assert_eq!(e, edit("a", 1, 1));
    e.delete(true);
    assert_eq!(e, edit("a", 1, 1));
    let mut e = edit("abc", 0, 2);
    e.delete(true);
    assert_eq!(e, edit("c", 0, 0));
}

#[test]
fn typing_a_character_and_taking_it_back_leaves_the_field_as_it_was() {
    let mut e = edit("wörd", 3, 3);
    e.insert("ß");
    let r = e.key("Backspace", 0, false, false);
    assert!(r.ours);
    assert_eq!(e, edit("wörd", 3, 3));
}

#[test]
fn arrows_move_collapse_and_extend() {
    let mut e = edit("one two", 7, 7);
    assert!(e.key("ArrowLeft", CTRL, false, false).ours);
    assert_eq!((e.caret, e.anchor), (4, 4));
    assert!(e.key("ArrowLeft", SHIFT, false, false).ours);
    assert_eq!((e.caret, e.anchor), (3, 4));
    // Without shift a selection collapses to its start.
    assert!(e.key("ArrowLeft", 0, false, false).ours);
    assert_eq!((e.caret, e.anchor), (3, 3));
    assert!(e.key("ArrowRight", CMD, false, false).ours);
    assert_eq!((e.caret, e.anchor), (4, 4));
    assert!(e.key("End", 0, false, false).ours);
    assert_eq!(e.caret, 7);
    // Nothing left to the right: the key is handed on.
    assert!(!e.key("ArrowRight", 0, false, false).ours);
    assert!(e.key("Home", SHIFT, false, false).ours);
    assert_eq!((e.caret, e.anchor), (0, 7));
}

#[test]
fn home_and_end_keep_to_the_line_unless_ctrl() {
    let mut e = edit("ab\ncd\nef", 4, 4);
    e.key("Home", 0, true, false);
    assert_eq!(e.caret, 3);
    e.key("End", 0, true, false);
    assert_eq!(e.caret, 5);
    e.key("End", CTRL, true, false);
    assert_eq!(e.caret, 8);
    e.key("Home", CTRL, true, false);
    assert_eq!(e.caret, 0);
}

#[test]
fn copy_cut_and_select_all() {
    let mut e = edit("secret", 0, 0);
    assert!(e.key("a", CTRL, false, false).ours);
    assert_eq!((e.caret, e.anchor), (6, 0));
    let r = e.key("c", CTRL, false, false);
    assert_eq!(r, Keyed { ours: true, copied: Some("secret".into()), hid: false });
    let r = e.key("C", CTRL, false, true);
    assert_eq!(r, Keyed { ours: true, copied: None, hid: true });
    let r = e.key("x", CTRL, false, true);
    assert_eq!(r, Keyed { ours: true, copied: None, hid: false });
    assert_eq!(e, edit("", 0, 0));
    // Nothing selected: copy is nobody's.
    assert!(!e.key("c", CTRL, false, false).ours);
}

#[test]
fn a_key_that_is_not_the_fields_is_handed_on() {
    let mut e = edit("ab", 1, 1);
    assert!(!e.key("a", 0, false, false).ours);
    assert!(!e.key("Enter", 0, false, false).ours);
    assert!(e.key("Backspace", 0, false, false).ours);
    assert_eq!(e, edit("b", 0, 0));
    assert!(!edit("", 0, 0).key("Backspace", 0, false, false).ours);
    let mut e = edit("ab", 1, 1);
    assert!(e.key("Enter", 0, true, false).ours);
    assert_eq!(e, edit("a\nb", 2, 2));
    assert!(!e.key("F5", 0, true, false).ours);
}
