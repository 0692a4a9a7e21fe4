use eui_client::driver::{pick, save, Close, FileWant, Item, NfcAsk, PickSource, Prop};
use eui_client::nfc::{record, start};

#[test]
fn a_close_reads_as_a_sentence() {
    assert_eq!(Close::ServerError(42, "no such thing".into()).message(), "no such thing (error 42)");
    assert_eq!(Close::Version(7).message(), "the server speaks protocol version 7, which this client does not");
    assert_eq!(Close::Protocol("a Hello from the server".into()).message(), "the connection broke the protocol: a Hello from the server");
    assert_eq!(Close::Transport("reset".into()).message(), "reset");
    assert_eq!(Close::ServerError(0, String::new()).message(), " (error 0)");
}

#[test]
fn a_pick_source_survives_its_byte() {
    for s in [PickSource::Held, PickSource::Camera, PickSource::Microphone] {
        assert_eq!(PickSource::from_u8(s.to_u8()), s);
    }
}

#[test]
fn this_build_has_no_reader() {
    assert!(!start(&NfcAsk { token: 1, node: 2, prompt: "scan".into() }));
    let r = record("uri", "https://x");
    assert_eq!((r.kind.as_str(), r.payload.as_str()), ("uri", "https://x"));
}

#[test]
fn a_path_is_told_by_its_last_segment() {
    assert_eq!(eui_client::driver::basename("/home/me/report.csv"), "report.csv");
    assert_eq!(eui_client::driver::basename("C:\\Users\\me\\a.txt"), "a.txt");
    assert_eq!(eui_client::driver::basename("plain.txt"), "plain.txt");
    assert_eq!(eui_client::driver::basename("dir/"), "");
}

const DEFAULT: u64 = 1 << 20;
const CEILING: u64 = 1 << 30;

#[test]
fn a_pick_prop_says_which_dialog() {
    let plain = pick(&Prop::Str("png,jpg".into()), DEFAULT, CEILING);
    assert_eq!(plain, FileWant::Open { accept: "png,jpg".into(), multiple: false, max: DEFAULT, source: PickSource::Held });
    let many = pick(&Prop::List(vec![Item::Str("csv".into()), Item::Int(1), Item::Int(500)]), DEFAULT, CEILING);
    assert_eq!(many, FileWant::Open { accept: "csv".into(), multiple: true, max: 500, source: PickSource::Held });
    // The camera wins over a recording, and gets one file.
    let photo = pick(&Prop::List(vec![Item::Other, Item::Int(1 | 2 | 4), Item::Int(-3)]), DEFAULT, CEILING);
    assert_eq!(photo, FileWant::Open { accept: String::new(), multiple: false, max: DEFAULT, source: PickSource::Camera });
    let voice = pick(&Prop::List(vec![Item::Str("".into()), Item::Int(4), Item::Int(i64::MAX)]), DEFAULT, CEILING);
    assert_eq!(voice, FileWant::Open { accept: String::new(), multiple: false, max: CEILING, source: PickSource::Microphone });
    assert_eq!(pick(&Prop::Other, DEFAULT, CEILING), FileWant::Open { accept: String::new(), multiple: false, max: DEFAULT, source: PickSource::Held });
}

#[test]
fn a_save_prop_suggests_a_name_and_never_a_path() {
    assert_eq!(save(&Prop::Str("/srv/out/report.csv".into())), FileWant::Save { name: "report.csv".into() });
    assert_eq!(save(&Prop::List(vec![Item::Str("a\\b.txt".into())])), FileWant::Save { name: "b.txt".into() });
    assert_eq!(save(&Prop::Str("dir/".into())), FileWant::Save { name: "download".into() });
    assert_eq!(save(&Prop::Other), FileWant::Save { name: "download".into() });
}
