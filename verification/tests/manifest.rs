use eui_client::manifest::{
    config_dir, grant_text, hex, join_path, judge, normal, read_grant, store_path, verify, Answered, ManifestError, PinStep,
    Pinned, Rotation, Signed,
};
use ring::signature::{Ed25519KeyPair, KeyPair};

#[test]
fn an_origin_has_one_spelling() {
    assert_eq!(normal("https://App.example:443/"), "https://app.example");
    assert_eq!(normal("  https://app.example  "), "https://app.example");
    assert_eq!(normal("http://h:80"), "http://h");
    assert_eq!(normal("wss://h:443///"), "wss://h");
    assert_eq!(normal("ws://h:80"), "ws://h");
    // Not the scheme's default port, so it stays.
    assert_eq!(normal("https://h:80"), "https://h:80");
    assert_eq!(normal("HTTP://H:8080"), "http://h:8080");
}

#[test]
fn a_store_path_names_no_file_anywhere_else() {
    assert_eq!(hex("a/"), "612f");
    assert_eq!(hex(""), "");
    let p = store_path("/pins", "https://App.example:443/", "../x");
    assert_eq!(p, format!("/pins/by-origin/{}/{}", hex("https://app.example"), hex("../x")));
    // Two spellings of one origin find one pin.
    assert_eq!(store_path("/p", "https://app.example", "a"), store_path("/p", "HTTPS://APP.EXAMPLE:443", "a"));
}

#[test]
fn paths_join_the_way_a_path_does() {
    assert_eq!(join_path("/a", "b"), "/a/b");
    assert_eq!(join_path("/a/", "b"), "/a/b");
    assert_eq!(join_path("", "b"), "b");
    assert_eq!(join_path("/a", "/b"), "/b");
    assert_eq!(config_dir(Some("/x"), Some("/y"), Some("/h")).as_deref(), Some("/x/eui"));
    assert_eq!(config_dir(None, Some("/y"), Some("/h")).as_deref(), Some("/y/eui"));
    assert_eq!(config_dir(None, None, Some("/h")).as_deref(), Some("/h/.config/eui"));
    assert_eq!(config_dir(None, None, None), None);
}

fn pair(seed: u8) -> Ed25519KeyPair {
    Ed25519KeyPair::from_seed_unchecked(&[seed; 32]).unwrap()
}

fn key(p: &Ed25519KeyPair) -> [u8; 32] {
    p.public_key().as_ref().try_into().unwrap()
}

fn signed(p: &Ed25519KeyPair, min: u32, max: u32, rotation: Option<Rotation>) -> Signed {
    let body = b"the manifest".to_vec();
    Signed { publisher_key: key(p), signature: p.sign(&body).as_ref().to_vec(), signed_bytes: body, protocol_min: min, protocol_max: max, rotation }
}

#[test]
fn a_manifest_is_trusted_on_first_use_and_held_to_its_pin() {
    let a = pair(1);
    let b = pair(2);
    assert_eq!(verify(&signed(&a, 2, 3, None), 3, Pinned::Missing), Ok(PinStep::Write));
    assert_eq!(verify(&signed(&a, 2, 3, None), 3, Pinned::Key(key(&a).to_vec())), Ok(PinStep::Keep));
    assert_eq!(verify(&signed(&a, 2, 3, None), 3, Pinned::Key(key(&b).to_vec())), Err(ManifestError::KeyChanged));
    assert_eq!(verify(&signed(&a, 2, 3, None), 3, Pinned::Unreadable("denied".into())), Err(ManifestError::Pins("denied".into())));
}

#[test]
fn a_rotation_signed_by_the_pinned_key_moves_the_pin() {
    let old = pair(1);
    let new = pair(2);
    let good = Rotation { previous_key: key(&old), signature: old.sign(&key(&new)).as_ref().to_vec() };
    assert_eq!(verify(&signed(&new, 2, 3, Some(good)), 3, Pinned::Key(key(&old).to_vec())), Ok(PinStep::Write));
    let forged = Rotation { previous_key: key(&old), signature: new.sign(&key(&new)).as_ref().to_vec() };
    assert_eq!(verify(&signed(&new, 2, 3, Some(forged)), 3, Pinned::Key(key(&old).to_vec())), Err(ManifestError::KeyChanged));
}

#[test]
fn a_bad_signature_and_ranges_that_do_not_meet_are_refused() {
    let a = pair(1);
    let mut m = signed(&a, 2, 3, None);
    m.signed_bytes.push(0);
    assert_eq!(verify(&m, 3, Pinned::Missing), Err(ManifestError::BadSignature));
    // Older servers are spoken to; ranges only have to meet.
    assert_eq!(verify(&signed(&a, 2, 2, None), 3, Pinned::Missing), Ok(PinStep::Write));
    assert_eq!(verify(&signed(&a, 4, 5, None), 3, Pinned::Missing), Err(ManifestError::Protocol { min: 4, max: 5 }));
    assert_eq!(verify(&signed(&a, 1, 1, None), 3, Pinned::Missing), Err(ManifestError::Protocol { min: 1, max: 1 }));
}

#[test]
fn an_answer_is_kept_and_read_back() {
    let all = 0b1111;
    let a = Answered { asked: 0b1011, granted: 0b0011 };
    let text = grant_text(a, all);
    assert_eq!(text, "11 3\n");
    assert_eq!(read_grant(&text, all), Some(a));
    // Cut to what this build knows, and never more granted than asked.
    let wide = Answered { asked: 0b1_0000_0011, granted: 0b1_0000_0111 };
    assert_eq!(grant_text(wide, all), "3 3\n");
    assert_eq!(read_grant("3 4\n", all), None, "a grant beyond what was asked is no answer");
    assert_eq!(read_grant("  +3\t\t1  ", all), Some(Answered { asked: 3, granted: 1 }));
    assert_eq!(read_grant("3", all), None);
    assert_eq!(read_grant("x 1", all), None);
    assert_eq!(read_grant("4294967296 1", all), None, "past a u32");
    assert_eq!(read_grant("", all), None);
}

#[test]
fn a_refusal_reads_as_a_sentence() {
    assert_eq!(ManifestError::Protocol { min: 2, max: 2 }.message(3), "manifest: the server speaks EUI 2–2, this client 3");
    assert_eq!(ManifestError::Pins("denied".into()).message(3), "manifest: pin store: denied");
    assert_eq!(ManifestError::BadSignature.message(3), "manifest: the signature does not verify");
}

#[test]
fn the_decision_goes_signature_then_protocol_then_pin() {
    let key = [7u8; 32];
    let other = [8u8; 32];
    assert_eq!(judge(false, 2, 3, 3, &key, None, Pinned::Missing), Err(ManifestError::BadSignature));
    assert_eq!(judge(true, 4, 5, 3, &key, None, Pinned::Missing), Err(ManifestError::Protocol { min: 4, max: 5 }));
    assert_eq!(judge(true, 1, 1, 3, &key, None, Pinned::Missing), Err(ManifestError::Protocol { min: 1, max: 1 }));
    assert_eq!(judge(true, 2, 3, 3, &key, None, Pinned::Missing), Ok(PinStep::Write));
    assert_eq!(judge(true, 2, 3, 3, &key, None, Pinned::Key(key.to_vec())), Ok(PinStep::Keep));
    assert_eq!(judge(true, 2, 3, 3, &key, None, Pinned::Key(other.to_vec())), Err(ManifestError::KeyChanged));
    assert_eq!(judge(true, 2, 3, 3, &key, Some((&other, true)), Pinned::Key(other.to_vec())), Ok(PinStep::Write));
    assert_eq!(judge(true, 2, 3, 3, &key, Some((&other, false)), Pinned::Key(other.to_vec())), Err(ManifestError::KeyChanged));
    assert_eq!(judge(true, 2, 3, 3, &key, Some((&key, true)), Pinned::Key(other.to_vec())), Err(ManifestError::KeyChanged));
    assert_eq!(judge(true, 2, 3, 3, &key, None, Pinned::Unreadable("denied".into())), Err(ManifestError::Pins("denied".into())));
}

#[test]
fn two_applications_never_share_a_store_path() {
    let a = store_path("/pins", "https://app.example", "one");
    let b = store_path("/pins", "https://app.example", "two");
    let c = store_path("/pins", "https://other.example", "one");
    assert_ne!(a, b);
    assert_ne!(a, c);
    // An app_id cannot spell its way into another origin's directory.
    let d = store_path("/pins", "https://app.example", "../other");
    assert!(d.starts_with("/pins/by-origin/"));
    assert_ne!(d, c);
}
