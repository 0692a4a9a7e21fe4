use eui_client::instance::{answered, ask_text, hello, read_ask, Launch, MAX_URLS};

fn launch(url: &str) -> Launch {
    Launch { url: url.into(), allowed: 0 }
}

#[test]
fn an_ask_crosses_with_its_addresses_and_its_grant() {
    let asks = vec![launch("wss://host/_eui/session/one"), launch("wss://host/_eui/session/two")];
    let text = ask_text("abc123", &asks, false, 96);
    assert_eq!(text, "eui-instance 1 abc123\n96 0\nwss://host/_eui/session/one\nwss://host/_eui/session/two\n\n");
    let got = read_ask(&text, "abc123").expect("one of ours");
    assert_eq!(got.launches.len(), 2);
    assert_eq!(got.launches[0].url, "wss://host/_eui/session/one");
    assert_eq!(got.launches[1].url, "wss://host/_eui/session/two");
    // The grant is the one on that command line.
    assert_eq!(got.allowed, 96);
    assert_eq!(got.launches[0].allowed, 96);
    assert!(!got.chrome);
}

#[test]
fn another_build_gets_a_window_of_its_own() {
    let text = ask_text("abc123", &vec![launch("wss://x")], true, 0);
    assert!(read_ask(&text, "def456").is_none());
    assert!(read_ask("", "abc123").is_none());
    assert!(read_ask("eui-instance 1 abc123\nnot-a-number 1\n", "abc123").is_none());
    let shell = read_ask(&text, "abc123").unwrap();
    assert!(shell.chrome);
}

#[test]
fn an_ask_carries_at_most_the_cap_and_stops_at_an_empty_line() {
    let many: Vec<Launch> = (0..40).map(|i| launch(&format!("wss://h/{i}"))).collect();
    let text = ask_text("b", &many, false, 1);
    assert_eq!(read_ask(&text, "b").unwrap().launches.len(), MAX_URLS);
    let got = read_ask("eui-instance 1 b\r\n+7 1\r\nwss://a\r\n\r\nwss://never\n", "b").unwrap();
    assert_eq!(got.allowed, 7);
    assert!(got.chrome);
    assert_eq!(got.launches.len(), 1);
    assert_eq!(got.launches[0].url, "wss://a");
}

#[test]
fn the_answer_is_ok() {
    assert!(answered("ok\n"));
    assert!(answered("  ok "));
    assert!(!answered("no\n"));
    assert!(!answered(""));
    assert_eq!(hello("x"), "eui-instance 1 x");
}
