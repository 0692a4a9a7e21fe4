use eui_client::scancode::{scancode_of, Key, Physical};

#[test]
fn the_table_is_the_kernels() {
    for (key, scancode) in [
        (Key::Escape, 1),
        (Key::Digit1, 2),
        (Key::Digit0, 11),
        (Key::Enter, 28),
        (Key::KeyA, 30),
        (Key::ShiftLeft, 42),
        (Key::AltRight, 100),
        (Key::Space, 57),
        (Key::CapsLock, 58),
        (Key::ArrowUp, 103),
        (Key::SuperLeft, 125),
        (Key::F24, 194),
    ] {
        assert_eq!(scancode_of(Physical::Code(key)), Some(scancode), "{key:?}");
    }
}

#[test]
fn a_key_winit_could_not_name_keeps_its_number() {
    assert_eq!(scancode_of(Physical::Xkb(248)), Some(248));
    assert_eq!(scancode_of(Physical::Unidentified), None);
}

#[test]
fn a_key_the_kernel_does_not_number_has_no_code() {
    assert_eq!(scancode_of(Physical::Code(Key::Other)), None);
}
