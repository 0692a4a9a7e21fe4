use eui_client::serving::{Serve, Serving};
use eui_client::worker::Request;

fn config() -> Request {
    Request::Config { w: 10, h: 10, scale: 1, granted: 0 }
}

#[test]
fn nothing_reaches_a_driver_before_config() {
    let mut s = Serving::new(Ok("landlock".into()));
    assert!(matches!(s.step(&Request::Hello), Serve::Refuse));
    assert!(matches!(s.step(&Request::Tick), Serve::Refuse));
}

#[test]
fn the_sandbox_is_reported_once() {
    let mut s = Serving::new(Ok("landlock".into()));
    match s.step(&config()) {
        Serve::Configure(Ok(why)) => assert_eq!(why, "landlock"),
        _ => panic!("the first config reports the sandbox"),
    }
    assert!(matches!(s.step(&Request::Tick), Serve::Dispatch));
    match s.step(&config()) {
        Serve::Configure(Err(why)) => assert_eq!(why, "reported already"),
        _ => panic!("a second config says it was reported"),
    }
}
