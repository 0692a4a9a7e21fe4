//! The evdev scancode of a physical key.
//!
//! A Wayland compositor speaks xkb keycodes, which are the kernel's
//! scancodes plus eight; the window's key event names the key instead. This
//! is the table from a key's name back to the kernel's number for it
//! (`linux/input-event-codes.h`: `KEY_1` is 2, `KEY_A` is 30), and no two
//! keys in it share a number.

use vstd::prelude::*;

verus! {

/// A physical key, named by where it is on the keyboard.
#[derive(Clone, Copy, Debug, PartialEq, Eq)]
pub enum Key {
    Escape,
    Digit1,
    Digit2,
    Digit3,
    Digit4,
    Digit5,
    Digit6,
    Digit7,
    Digit8,
    Digit9,
    Digit0,
    Minus,
    Equal,
    Backspace,
    Tab,
    KeyQ,
    KeyW,
    KeyE,
    KeyR,
    KeyT,
    KeyY,
    KeyU,
    KeyI,
    KeyO,
    KeyP,
    BracketLeft,
    BracketRight,
    Enter,
    ControlLeft,
    KeyA,
    KeyS,
    KeyD,
    KeyF,
    KeyG,
    KeyH,
    KeyJ,
    KeyK,
    KeyL,
    Semicolon,
    Quote,
    Backquote,
    ShiftLeft,
    Backslash,
    KeyZ,
    KeyX,
    KeyC,
    KeyV,
    KeyB,
    KeyN,
    KeyM,
    Comma,
    Period,
    Slash,
    ShiftRight,
    NumpadMultiply,
    AltLeft,
    Space,
    CapsLock,
    F1,
    F2,
    F3,
    F4,
    F5,
    F6,
    F7,
    F8,
    F9,
    F10,
    NumLock,
    ScrollLock,
    Numpad7,
    Numpad8,
    Numpad9,
    NumpadSubtract,
    Numpad4,
    Numpad5,
    Numpad6,
    NumpadAdd,
    Numpad1,
    Numpad2,
    Numpad3,
    Numpad0,
    NumpadDecimal,
    Lang5,
    IntlBackslash,
    F11,
    F12,
    IntlRo,
    Lang3,
    Lang4,
    Convert,
    KanaMode,
    NonConvert,
    NumpadEnter,
    ControlRight,
    NumpadDivide,
    PrintScreen,
    AltRight,
    Home,
    ArrowUp,
    PageUp,
    ArrowLeft,
    ArrowRight,
    End,
    ArrowDown,
    PageDown,
    Insert,
    Delete,
    AudioVolumeMute,
    AudioVolumeDown,
    AudioVolumeUp,
    NumpadEqual,
    Pause,
    NumpadComma,
    Lang1,
    Lang2,
    IntlYen,
    SuperLeft,
    SuperRight,
    ContextMenu,
    MediaTrackNext,
    MediaPlayPause,
    MediaTrackPrevious,
    MediaStop,
    F13,
    F14,
    F15,
    F16,
    F17,
    F18,
    F19,
    F20,
    F21,
    F22,
    F23,
    F24,
    /// A key with a name that the kernel has no code for.
    Other,
}

/// What a key event says the key is: a name, or the raw scancode of a key
/// that has no name, or nothing usable.
#[derive(Clone, Copy, Debug, PartialEq, Eq)]
pub enum Physical {
    Code(Key),
    Xkb(u32),
    Unidentified,
}

/// The kernel's number for a named key.
pub open spec fn code_of(k: Key) -> Option<u32> {
    match k {
        Key::Escape => Some(1),
        Key::Digit1 => Some(2),
        Key::Digit2 => Some(3),
        Key::Digit3 => Some(4),
        Key::Digit4 => Some(5),
        Key::Digit5 => Some(6),
        Key::Digit6 => Some(7),
        Key::Digit7 => Some(8),
        Key::Digit8 => Some(9),
        Key::Digit9 => Some(10),
        Key::Digit0 => Some(11),
        Key::Minus => Some(12),
        Key::Equal => Some(13),
        Key::Backspace => Some(14),
        Key::Tab => Some(15),
        Key::KeyQ => Some(16),
        Key::KeyW => Some(17),
        Key::KeyE => Some(18),
        Key::KeyR => Some(19),
        Key::KeyT => Some(20),
        Key::KeyY => Some(21),
        Key::KeyU => Some(22),
        Key::KeyI => Some(23),
        Key::KeyO => Some(24),
        Key::KeyP => Some(25),
        Key::BracketLeft => Some(26),
        Key::BracketRight => Some(27),
        Key::Enter => Some(28),
        Key::ControlLeft => Some(29),
        Key::KeyA => Some(30),
        Key::KeyS => Some(31),
        Key::KeyD => Some(32),
        Key::KeyF => Some(33),
        Key::KeyG => Some(34),
        Key::KeyH => Some(35),
        Key::KeyJ => Some(36),
        Key::KeyK => Some(37),
        Key::KeyL => Some(38),
        Key::Semicolon => Some(39),
        Key::Quote => Some(40),
        Key::Backquote => Some(41),
        Key::ShiftLeft => Some(42),
        Key::Backslash => Some(43),
        Key::KeyZ => Some(44),
        Key::KeyX => Some(45),
        Key::KeyC => Some(46),
        Key::KeyV => Some(47),
        Key::KeyB => Some(48),
        Key::KeyN => Some(49),
        Key::KeyM => Some(50),
        Key::Comma => Some(51),
        Key::Period => Some(52),
        Key::Slash => Some(53),
        Key::ShiftRight => Some(54),
        Key::NumpadMultiply => Some(55),
        Key::AltLeft => Some(56),
        Key::Space => Some(57),
        Key::CapsLock => Some(58),
        Key::F1 => Some(59),
        Key::F2 => Some(60),
        Key::F3 => Some(61),
        Key::F4 => Some(62),
        Key::F5 => Some(63),
        Key::F6 => Some(64),
        Key::F7 => Some(65),
        Key::F8 => Some(66),
        Key::F9 => Some(67),
        Key::F10 => Some(68),
        Key::NumLock => Some(69),
        Key::ScrollLock => Some(70),
        Key::Numpad7 => Some(71),
        Key::Numpad8 => Some(72),
        Key::Numpad9 => Some(73),
        Key::NumpadSubtract => Some(74),
        Key::Numpad4 => Some(75),
        Key::Numpad5 => Some(76),
        Key::Numpad6 => Some(77),
        Key::NumpadAdd => Some(78),
        Key::Numpad1 => Some(79),
        Key::Numpad2 => Some(80),
        Key::Numpad3 => Some(81),
        Key::Numpad0 => Some(82),
        Key::NumpadDecimal => Some(83),
        Key::Lang5 => Some(85),
        Key::IntlBackslash => Some(86),
        Key::F11 => Some(87),
        Key::F12 => Some(88),
        Key::IntlRo => Some(89),
        Key::Lang3 => Some(90),
        Key::Lang4 => Some(91),
        Key::Convert => Some(92),
        Key::KanaMode => Some(93),
        Key::NonConvert => Some(94),
        Key::NumpadEnter => Some(96),
        Key::ControlRight => Some(97),
        Key::NumpadDivide => Some(98),
        Key::PrintScreen => Some(99),
        Key::AltRight => Some(100),
        Key::Home => Some(102),
        Key::ArrowUp => Some(103),
        Key::PageUp => Some(104),
        Key::ArrowLeft => Some(105),
        Key::ArrowRight => Some(106),
        Key::End => Some(107),
        Key::ArrowDown => Some(108),
        Key::PageDown => Some(109),
        Key::Insert => Some(110),
        Key::Delete => Some(111),
        Key::AudioVolumeMute => Some(113),
        Key::AudioVolumeDown => Some(114),
        Key::AudioVolumeUp => Some(115),
        Key::NumpadEqual => Some(117),
        Key::Pause => Some(119),
        Key::NumpadComma => Some(121),
        Key::Lang1 => Some(122),
        Key::Lang2 => Some(123),
        Key::IntlYen => Some(124),
        Key::SuperLeft => Some(125),
        Key::SuperRight => Some(126),
        Key::ContextMenu => Some(127),
        Key::MediaTrackNext => Some(163),
        Key::MediaPlayPause => Some(164),
        Key::MediaTrackPrevious => Some(165),
        Key::MediaStop => Some(166),
        Key::F13 => Some(183),
        Key::F14 => Some(184),
        Key::F15 => Some(185),
        Key::F16 => Some(186),
        Key::F17 => Some(187),
        Key::F18 => Some(188),
        Key::F19 => Some(189),
        Key::F20 => Some(190),
        Key::F21 => Some(191),
        Key::F22 => Some(192),
        Key::F23 => Some(193),
        Key::F24 => Some(194),
        Key::Other => None,
    }
}

/// The key the kernel numbers `c`, if the table has one.
pub open spec fn key_with(c: u32) -> Option<Key> {
    match c {
        1 => Some(Key::Escape),
        2 => Some(Key::Digit1),
        3 => Some(Key::Digit2),
        4 => Some(Key::Digit3),
        5 => Some(Key::Digit4),
        6 => Some(Key::Digit5),
        7 => Some(Key::Digit6),
        8 => Some(Key::Digit7),
        9 => Some(Key::Digit8),
        10 => Some(Key::Digit9),
        11 => Some(Key::Digit0),
        12 => Some(Key::Minus),
        13 => Some(Key::Equal),
        14 => Some(Key::Backspace),
        15 => Some(Key::Tab),
        16 => Some(Key::KeyQ),
        17 => Some(Key::KeyW),
        18 => Some(Key::KeyE),
        19 => Some(Key::KeyR),
        20 => Some(Key::KeyT),
        21 => Some(Key::KeyY),
        22 => Some(Key::KeyU),
        23 => Some(Key::KeyI),
        24 => Some(Key::KeyO),
        25 => Some(Key::KeyP),
        26 => Some(Key::BracketLeft),
        27 => Some(Key::BracketRight),
        28 => Some(Key::Enter),
        29 => Some(Key::ControlLeft),
        30 => Some(Key::KeyA),
        31 => Some(Key::KeyS),
        32 => Some(Key::KeyD),
        33 => Some(Key::KeyF),
        34 => Some(Key::KeyG),
        35 => Some(Key::KeyH),
        36 => Some(Key::KeyJ),
        37 => Some(Key::KeyK),
        38 => Some(Key::KeyL),
        39 => Some(Key::Semicolon),
        40 => Some(Key::Quote),
        41 => Some(Key::Backquote),
        42 => Some(Key::ShiftLeft),
        43 => Some(Key::Backslash),
        44 => Some(Key::KeyZ),
        45 => Some(Key::KeyX),
        46 => Some(Key::KeyC),
        47 => Some(Key::KeyV),
        48 => Some(Key::KeyB),
        49 => Some(Key::KeyN),
        50 => Some(Key::KeyM),
        51 => Some(Key::Comma),
        52 => Some(Key::Period),
        53 => Some(Key::Slash),
        54 => Some(Key::ShiftRight),
        55 => Some(Key::NumpadMultiply),
        56 => Some(Key::AltLeft),
        57 => Some(Key::Space),
        58 => Some(Key::CapsLock),
        59 => Some(Key::F1),
        60 => Some(Key::F2),
        61 => Some(Key::F3),
        62 => Some(Key::F4),
        63 => Some(Key::F5),
        64 => Some(Key::F6),
        65 => Some(Key::F7),
        66 => Some(Key::F8),
        67 => Some(Key::F9),
        68 => Some(Key::F10),
        69 => Some(Key::NumLock),
        70 => Some(Key::ScrollLock),
        71 => Some(Key::Numpad7),
        72 => Some(Key::Numpad8),
        73 => Some(Key::Numpad9),
        74 => Some(Key::NumpadSubtract),
        75 => Some(Key::Numpad4),
        76 => Some(Key::Numpad5),
        77 => Some(Key::Numpad6),
        78 => Some(Key::NumpadAdd),
        79 => Some(Key::Numpad1),
        80 => Some(Key::Numpad2),
        81 => Some(Key::Numpad3),
        82 => Some(Key::Numpad0),
        83 => Some(Key::NumpadDecimal),
        85 => Some(Key::Lang5),
        86 => Some(Key::IntlBackslash),
        87 => Some(Key::F11),
        88 => Some(Key::F12),
        89 => Some(Key::IntlRo),
        90 => Some(Key::Lang3),
        91 => Some(Key::Lang4),
        92 => Some(Key::Convert),
        93 => Some(Key::KanaMode),
        94 => Some(Key::NonConvert),
        96 => Some(Key::NumpadEnter),
        97 => Some(Key::ControlRight),
        98 => Some(Key::NumpadDivide),
        99 => Some(Key::PrintScreen),
        100 => Some(Key::AltRight),
        102 => Some(Key::Home),
        103 => Some(Key::ArrowUp),
        104 => Some(Key::PageUp),
        105 => Some(Key::ArrowLeft),
        106 => Some(Key::ArrowRight),
        107 => Some(Key::End),
        108 => Some(Key::ArrowDown),
        109 => Some(Key::PageDown),
        110 => Some(Key::Insert),
        111 => Some(Key::Delete),
        113 => Some(Key::AudioVolumeMute),
        114 => Some(Key::AudioVolumeDown),
        115 => Some(Key::AudioVolumeUp),
        117 => Some(Key::NumpadEqual),
        119 => Some(Key::Pause),
        121 => Some(Key::NumpadComma),
        122 => Some(Key::Lang1),
        123 => Some(Key::Lang2),
        124 => Some(Key::IntlYen),
        125 => Some(Key::SuperLeft),
        126 => Some(Key::SuperRight),
        127 => Some(Key::ContextMenu),
        163 => Some(Key::MediaTrackNext),
        164 => Some(Key::MediaPlayPause),
        165 => Some(Key::MediaTrackPrevious),
        166 => Some(Key::MediaStop),
        183 => Some(Key::F13),
        184 => Some(Key::F14),
        185 => Some(Key::F15),
        186 => Some(Key::F16),
        187 => Some(Key::F17),
        188 => Some(Key::F18),
        189 => Some(Key::F19),
        190 => Some(Key::F20),
        191 => Some(Key::F21),
        192 => Some(Key::F22),
        193 => Some(Key::F23),
        194 => Some(Key::F24),
        _ => None,
    }
}

/// The evdev scancode of `key`, or `None` for a key the kernel has no code
/// for. A key without a name arrives as its raw scancode already, and that
/// is handed straight back.
pub fn scancode_of(key: Physical) -> (r: Option<u32>)
    ensures
        r == match key {
            Physical::Code(k) => code_of(k),
            Physical::Xkb(raw) => Some(raw),
            Physical::Unidentified => None,
        },
{
    let code = match key {
        Physical::Code(code) => code,
        Physical::Xkb(raw) => return Some(raw),
        Physical::Unidentified => return None,
    };
    match code {
        Key::Escape => Some(1),
        Key::Digit1 => Some(2),
        Key::Digit2 => Some(3),
        Key::Digit3 => Some(4),
        Key::Digit4 => Some(5),
        Key::Digit5 => Some(6),
        Key::Digit6 => Some(7),
        Key::Digit7 => Some(8),
        Key::Digit8 => Some(9),
        Key::Digit9 => Some(10),
        Key::Digit0 => Some(11),
        Key::Minus => Some(12),
        Key::Equal => Some(13),
        Key::Backspace => Some(14),
        Key::Tab => Some(15),
        Key::KeyQ => Some(16),
        Key::KeyW => Some(17),
        Key::KeyE => Some(18),
        Key::KeyR => Some(19),
        Key::KeyT => Some(20),
        Key::KeyY => Some(21),
        Key::KeyU => Some(22),
        Key::KeyI => Some(23),
        Key::KeyO => Some(24),
        Key::KeyP => Some(25),
        Key::BracketLeft => Some(26),
        Key::BracketRight => Some(27),
        Key::Enter => Some(28),
        Key::ControlLeft => Some(29),
        Key::KeyA => Some(30),
        Key::KeyS => Some(31),
        Key::KeyD => Some(32),
        Key::KeyF => Some(33),
        Key::KeyG => Some(34),
        Key::KeyH => Some(35),
        Key::KeyJ => Some(36),
        Key::KeyK => Some(37),
        Key::KeyL => Some(38),
        Key::Semicolon => Some(39),
        Key::Quote => Some(40),
        Key::Backquote => Some(41),
        Key::ShiftLeft => Some(42),
        Key::Backslash => Some(43),
        Key::KeyZ => Some(44),
        Key::KeyX => Some(45),
        Key::KeyC => Some(46),
        Key::KeyV => Some(47),
        Key::KeyB => Some(48),
        Key::KeyN => Some(49),
        Key::KeyM => Some(50),
        Key::Comma => Some(51),
        Key::Period => Some(52),
        Key::Slash => Some(53),
        Key::ShiftRight => Some(54),
        Key::NumpadMultiply => Some(55),
        Key::AltLeft => Some(56),
        Key::Space => Some(57),
        Key::CapsLock => Some(58),
        Key::F1 => Some(59),
        Key::F2 => Some(60),
        Key::F3 => Some(61),
        Key::F4 => Some(62),
        Key::F5 => Some(63),
        Key::F6 => Some(64),
        Key::F7 => Some(65),
        Key::F8 => Some(66),
        Key::F9 => Some(67),
        Key::F10 => Some(68),
        Key::NumLock => Some(69),
        Key::ScrollLock => Some(70),
        Key::Numpad7 => Some(71),
        Key::Numpad8 => Some(72),
        Key::Numpad9 => Some(73),
        Key::NumpadSubtract => Some(74),
        Key::Numpad4 => Some(75),
        Key::Numpad5 => Some(76),
        Key::Numpad6 => Some(77),
        Key::NumpadAdd => Some(78),
        Key::Numpad1 => Some(79),
        Key::Numpad2 => Some(80),
        Key::Numpad3 => Some(81),
        Key::Numpad0 => Some(82),
        Key::NumpadDecimal => Some(83),
        Key::Lang5 => Some(85),
        Key::IntlBackslash => Some(86),
        Key::F11 => Some(87),
        Key::F12 => Some(88),
        Key::IntlRo => Some(89),
        Key::Lang3 => Some(90),
        Key::Lang4 => Some(91),
        Key::Convert => Some(92),
        Key::KanaMode => Some(93),
        Key::NonConvert => Some(94),
        Key::NumpadEnter => Some(96),
        Key::ControlRight => Some(97),
        Key::NumpadDivide => Some(98),
        Key::PrintScreen => Some(99),
        Key::AltRight => Some(100),
        Key::Home => Some(102),
        Key::ArrowUp => Some(103),
        Key::PageUp => Some(104),
        Key::ArrowLeft => Some(105),
        Key::ArrowRight => Some(106),
        Key::End => Some(107),
        Key::ArrowDown => Some(108),
        Key::PageDown => Some(109),
        Key::Insert => Some(110),
        Key::Delete => Some(111),
        Key::AudioVolumeMute => Some(113),
        Key::AudioVolumeDown => Some(114),
        Key::AudioVolumeUp => Some(115),
        Key::NumpadEqual => Some(117),
        Key::Pause => Some(119),
        Key::NumpadComma => Some(121),
        Key::Lang1 => Some(122),
        Key::Lang2 => Some(123),
        Key::IntlYen => Some(124),
        Key::SuperLeft => Some(125),
        Key::SuperRight => Some(126),
        Key::ContextMenu => Some(127),
        Key::MediaTrackNext => Some(163),
        Key::MediaPlayPause => Some(164),
        Key::MediaTrackPrevious => Some(165),
        Key::MediaStop => Some(166),
        Key::F13 => Some(183),
        Key::F14 => Some(184),
        Key::F15 => Some(185),
        Key::F16 => Some(186),
        Key::F17 => Some(187),
        Key::F18 => Some(188),
        Key::F19 => Some(189),
        Key::F20 => Some(190),
        Key::F21 => Some(191),
        Key::F22 => Some(192),
        Key::F23 => Some(193),
        Key::F24 => Some(194),
        Key::Other => None,
    }
}

/// The table can be read backwards: a key's number names that key again.
pub proof fn lemma_table_reads_back(k: Key)
    ensures
        code_of(k) matches Some(c) ==> key_with(c) == Some(k),
{
}

/// No two keys share a scancode.
pub proof fn lemma_no_two_keys_share_a_code(a: Key, b: Key)
    requires
        code_of(a) is Some,
        code_of(a) == code_of(b),
    ensures
        a == b,
{
    lemma_table_reads_back(a);
    lemma_table_reads_back(b);
}

} // verus!
