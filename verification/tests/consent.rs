use eui_client::consent::{
    cap_in_words, Asking, Clicked, Consent, CONSENT_ALLOW, CONSENT_DENY, CONSENT_ROW,
};

const ALL: u32 = 0b11_1111_1111;

fn sheet(asked: u32, name: &str) -> Consent {
    match Consent::ask(asked, ALL, name) {
        Asking::Sheet(c) => c,
        Asking::Answered(a) => panic!("answered {a} without asking"),
    }
}

#[test]
fn nothing_the_client_knows_is_answered_at_once() {
    assert!(matches!(Consent::ask(0, ALL, "x"), Asking::Answered(0)));
    assert!(matches!(Consent::ask(1 << 20, ALL, "x"), Asking::Answered(0)));
}

#[test]
fn everything_asked_is_ticked_to_begin_with() {
    let c = sheet(0b1010 | (1 << 20), "Demo");
    assert_eq!(c.asked(), 0b1010);
    assert_eq!(c.chosen(), 0b1010);
    assert_eq!(c.rows(), vec![(0b10, true), (0b1000, true)]);
    assert_eq!(c.heading(), "Demo is asking for:");
    assert_eq!(sheet(1, "").heading(), "This application is asking for:");
}

#[test]
fn a_row_flips_its_own_bit_and_twice_undoes_it() {
    let mut c = sheet(0b1011, "Demo");
    assert_eq!(c.click(CONSENT_ROW + 1, 0), Clicked::Toggled);
    assert_eq!(c.chosen(), 0b1001);
    assert_eq!(c.rows(), vec![(1, true), (0b10, false), (0b1000, true)]);
    assert_eq!(c.click(CONSENT_ROW + 1, 0), Clicked::Toggled);
    assert_eq!(c.chosen(), 0b1011);
    // No fourth row, and the label inside a row is not the row.
    assert_eq!(c.click(CONSENT_ROW + 3, 0), Clicked::NotOurs);
    assert_eq!(c.click(5, 0), Clicked::NotOurs);
    assert_eq!(c.chosen(), 0b1011);
}

#[test]
fn allow_answers_with_what_is_ticked_and_closing_takes_nothing_away() {
    let mut c = sheet(0b111, "Demo");
    assert_eq!(c.click(CONSENT_ROW, 0), Clicked::Toggled);
    assert_eq!(c.click(CONSENT_ALLOW, 0), Clicked::Answer(0b110));
    // Closing answers with what was already granted, of what was asked.
    assert_eq!(c.click(CONSENT_DENY, 0b1_0001), Clicked::Answer(0b1));
    assert_eq!(c.click(CONSENT_DENY, 0), Clicked::Answer(0));
}

#[test]
fn a_capability_is_said_in_words() {
    assert_eq!(cap_in_words("camera"), "Take photographs with the camera");
    assert_eq!(cap_in_words("fs.pick"), "Open files you choose or drop on it");
    assert_eq!(cap_in_words("scene"), "Draw with a graphics program of its own");
    assert_eq!(cap_in_words("teleport"), "Something this build has no words for");
}
