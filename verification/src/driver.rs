//! What the session driver hands the window and takes from it: the dialogs
//! it asks for, the bytes a save is owed, the inputs the window feeds it,
//! and the small enums that travel with them.
//!
//! A coordinate, a size or a scale is carried as the bits of the `f32` the
//! window measured (`f32::to_bits`): the driver's wire moves those four
//! bytes unread, and this library does no arithmetic on them.

use vstd::prelude::*;

use crate::mesh::Mesh;
use crate::text::{chars_of, dec, from_chars, push_dec, push_str, string_of};

verus! {

/// The viewer's palette.
#[derive(Debug, Clone, Copy, PartialEq, Eq, Structural)]
pub enum ThemeMode {
    /// Dark text on a light ground.
    Light,
    /// Light text on a dark ground.
    Dark,
    /// The palette for people who need the most contrast there is.
    HighContrast,
}

impl ThemeMode {
    /// The byte this mode travels as.
    pub open spec fn spec_to_u8(self) -> u8 {
        match self {
            ThemeMode::Light => 0,
            ThemeMode::Dark => 1,
            ThemeMode::HighContrast => 2,
        }
    }

    /// The mode a byte names, if it names one.
    pub open spec fn spec_from_u8(v: u8) -> Option<ThemeMode> {
        if v == 0 {
            Some(ThemeMode::Light)
        } else if v == 1 {
            Some(ThemeMode::Dark)
        } else if v == 2 {
            Some(ThemeMode::HighContrast)
        } else {
            None
        }
    }

    #[verifier::when_used_as_spec(spec_to_u8)]
    pub fn to_u8(self) -> (b: u8)
        ensures
            b == self.spec_to_u8(),
    {
        match self {
            ThemeMode::Light => 0,
            ThemeMode::Dark => 1,
            ThemeMode::HighContrast => 2,
        }
    }

    #[verifier::when_used_as_spec(spec_from_u8)]
    pub fn from_u8(v: u8) -> (m: Option<ThemeMode>)
        ensures
            m == ThemeMode::spec_from_u8(v),
    {
        match v {
            0 => Some(ThemeMode::Light),
            1 => Some(ThemeMode::Dark),
            2 => Some(ThemeMode::HighContrast),
            _ => None,
        }
    }
}

/// Where a transfer stands after a chunk.
#[derive(Debug, Clone, Copy, PartialEq, Eq, Structural)]
pub enum Chunked {
    /// More chunks follow.
    More,
    /// This is the last chunk.
    Last,
    /// The transfer failed; the chunk's bytes say why.
    Abort,
}

impl Chunked {
    pub open spec fn spec_to_u8(self) -> u8 {
        match self {
            Chunked::More => 0,
            Chunked::Last => 1,
            Chunked::Abort => 2,
        }
    }

    pub open spec fn spec_from_u8(v: u8) -> Option<Chunked> {
        if v == 0 {
            Some(Chunked::More)
        } else if v == 1 {
            Some(Chunked::Last)
        } else if v == 2 {
            Some(Chunked::Abort)
        } else {
            None
        }
    }

    #[verifier::when_used_as_spec(spec_to_u8)]
    pub fn to_u8(self) -> (b: u8)
        ensures
            b == self.spec_to_u8(),
    {
        match self {
            Chunked::More => 0,
            Chunked::Last => 1,
            Chunked::Abort => 2,
        }
    }

    #[verifier::when_used_as_spec(spec_from_u8)]
    pub fn from_u8(v: u8) -> (c: Option<Chunked>)
        ensures
            c == Chunked::spec_from_u8(v),
    {
        match v {
            0 => Some(Chunked::More),
            1 => Some(Chunked::Last),
            2 => Some(Chunked::Abort),
            _ => None,
        }
    }
}

/// Where the bytes a file dialog wants are to come from. Reading what
/// someone already has and making something new with a camera are
/// different powers, gated by different capabilities.
#[derive(Debug, Clone, Copy, PartialEq, Eq, Structural)]
pub enum PickSource {
    /// Whatever the person already has: the file system, or on a phone the
    /// photo library.
    Held,
    /// A picture taken now.
    Camera,
    /// A recording made now.
    Microphone,
}

impl PickSource {
    pub open spec fn spec_to_u8(self) -> u8 {
        match self {
            PickSource::Held => 0,
            PickSource::Camera => 1,
            PickSource::Microphone => 2,
        }
    }

    /// An unknown source is `Held`, which is the one that asks for the
    /// least.
    pub open spec fn spec_from_u8(v: u8) -> PickSource {
        if v == 1 {
            PickSource::Camera
        } else if v == 2 {
            PickSource::Microphone
        } else {
            PickSource::Held
        }
    }

    /// For the pipe between the worker and the window.
    #[verifier::when_used_as_spec(spec_to_u8)]
    pub fn to_u8(self) -> (b: u8)
        ensures
            b == self.spec_to_u8(),
    {
        match self {
            PickSource::Held => 0,
            PickSource::Camera => 1,
            PickSource::Microphone => 2,
        }
    }

    /// Back from the pipe.
    #[verifier::when_used_as_spec(spec_from_u8)]
    pub fn from_u8(v: u8) -> (s: PickSource)
        ensures
            s == PickSource::spec_from_u8(v),
    {
        match v {
            1 => PickSource::Camera,
            2 => PickSource::Microphone,
            _ => PickSource::Held,
        }
    }
}

/// Which dialog a [`FileAsk`] wants.
#[derive(Debug, PartialEq, Eq)]
pub enum FileWant {
    /// The platform's open dialog.
    Open {
        /// Extensions to offer, comma separated and without dots; empty
        /// for every file.
        accept: String,
        /// Whether more than one file may be chosen.
        multiple: bool,
        /// The ceiling one file may not pass, in bytes.
        max: u64,
        /// Where the bytes come from.
        source: PickSource,
    },
    /// The platform's save dialog.
    Save {
        /// The name to suggest.
        name: String,
    },
}

/// A [`FileWant`] as values.
pub enum FileWantModel {
    Open { accept: Seq<char>, multiple: bool, max: u64, source: PickSource },
    Save { name: Seq<char> },
}

impl View for FileWant {
    type V = FileWantModel;

    open spec fn view(&self) -> FileWantModel {
        match self {
            FileWant::Open { accept, multiple, max, source } => FileWantModel::Open {
                accept: accept@,
                multiple: *multiple,
                max: *max,
                source: *source,
            },
            FileWant::Save { name } => FileWantModel::Save { name: name@ },
        }
    }
}

/// A dialog the tree asked for and the window has not opened yet.
#[derive(Debug, PartialEq, Eq)]
pub struct FileAsk {
    /// The driver's own name for this dialog.
    pub token: u32,
    /// The node that asked, by id.
    pub node: u32,
    /// Which dialog, and what to put in it.
    pub want: FileWant,
}

pub struct FileAskModel {
    pub token: u32,
    pub node: u32,
    pub want: FileWantModel,
}

impl View for FileAsk {
    type V = FileAskModel;

    open spec fn view(&self) -> FileAskModel {
        FileAskModel { token: self.token, node: self.node, want: self.want@ }
    }
}

/// Bytes the server owes a save, for the window to put on disk.
#[derive(Debug, PartialEq, Eq)]
pub struct FileWrite {
    /// The [`FileAsk::token`] of the save these bytes belong to.
    pub token: u32,
    /// Whether more follow, this is the last, or the transfer failed.
    pub flag: Chunked,
    /// The bytes to append, or why the transfer failed.
    pub bytes: Vec<u8>,
}

pub struct FileWriteModel {
    pub token: u32,
    pub flag: Chunked,
    pub bytes: Seq<u8>,
}

impl View for FileWrite {
    type V = FileWriteModel;

    open spec fn view(&self) -> FileWriteModel {
        FileWriteModel { token: self.token, flag: self.flag, bytes: self.bytes@ }
    }
}

/// A scan the tree asked for and the window has not started yet.
#[derive(Debug, PartialEq, Eq)]
pub struct NfcAsk {
    /// The driver's own name for this scan.
    pub token: u32,
    /// The node that asked, by id.
    pub node: u32,
    /// What to tell the person the scan is for.
    pub prompt: String,
}

/// One record off a tag. `kind` is `text`, `uri`, `mime:…` or `raw`, and
/// `payload` is what that kind means.
#[derive(Debug, PartialEq, Eq)]
pub struct NfcRecord {
    /// What `payload` is.
    pub kind: String,
    /// The record, as `kind` says to read it.
    pub payload: String,
}

/// What the window feeds the driver. Coordinates, sizes and scales are
/// the bits of the window's `f32`s.
#[derive(Debug, PartialEq, Eq)]
pub enum Input {
    /// Pointer moved to logical `(x, y)`.
    PointerMove(u32, u32),
    /// The pointer left the window.
    PointerOut,
    /// A button went down: `0` primary, `1` secondary, `2` middle.
    PointerDown(u8),
    /// A button came up.
    PointerUp(u8),
    /// Trackpad or a wheel already reported in pixels.
    Wheel(u32, u32),
    /// Wheel notches, in lines.
    WheelStep(u32, u32),
    /// A finger landed at logical `(x, y)`; `id` names the contact.
    TouchDown(u64, u32, u32),
    /// That finger moved.
    TouchMove(u64, u32, u32),
    /// That finger left the glass.
    TouchUp(u64, u32, u32),
    /// The window took the gesture away.
    TouchCancel(u64),
    /// Committed text.
    Text(String),
    /// An input method's composition in progress.
    ImePreedit(String),
    /// An input method committed text.
    ImeCommit(String),
    /// The person pasted text into the focused field.
    Paste(String),
    /// A named key, with modifiers, pressed or released.
    Key {
        /// W3C `KeyboardEvent.key` name.
        key: String,
        /// `1` shift, `2` control, `4` alt, `8` super.
        modifiers: u32,
        /// `true` on press.
        down: bool,
    },
    /// The person asked to go back.
    Back,
    /// The window is now `w × h` logical px at `scale` device px per logical.
    Resized(u32, u32, u32),
    /// The bottom `px` logical px of the window are covered.
    Covered(u32),
    /// The viewer changed palette.
    Mode(ThemeMode),
    /// The window lost focus.
    Unfocused,
    /// The window has the input again.
    Refocused,
}

pub enum InputModel {
    PointerMove(u32, u32),
    PointerOut,
    PointerDown(u8),
    PointerUp(u8),
    Wheel(u32, u32),
    WheelStep(u32, u32),
    TouchDown(u64, u32, u32),
    TouchMove(u64, u32, u32),
    TouchUp(u64, u32, u32),
    TouchCancel(u64),
    Text(Seq<char>),
    ImePreedit(Seq<char>),
    ImeCommit(Seq<char>),
    Paste(Seq<char>),
    Key { key: Seq<char>, modifiers: u32, down: bool },
    Back,
    Resized(u32, u32, u32),
    Covered(u32),
    Mode(ThemeMode),
    Unfocused,
    Refocused,
}

impl View for Input {
    type V = InputModel;

    open spec fn view(&self) -> InputModel {
        match self {
            Input::PointerMove(x, y) => InputModel::PointerMove(*x, *y),
            Input::PointerOut => InputModel::PointerOut,
            Input::PointerDown(b) => InputModel::PointerDown(*b),
            Input::PointerUp(b) => InputModel::PointerUp(*b),
            Input::Wheel(x, y) => InputModel::Wheel(*x, *y),
            Input::WheelStep(x, y) => InputModel::WheelStep(*x, *y),
            Input::TouchDown(id, x, y) => InputModel::TouchDown(*id, *x, *y),
            Input::TouchMove(id, x, y) => InputModel::TouchMove(*id, *x, *y),
            Input::TouchUp(id, x, y) => InputModel::TouchUp(*id, *x, *y),
            Input::TouchCancel(id) => InputModel::TouchCancel(*id),
            Input::Text(s) => InputModel::Text(s@),
            Input::ImePreedit(s) => InputModel::ImePreedit(s@),
            Input::ImeCommit(s) => InputModel::ImeCommit(s@),
            Input::Paste(s) => InputModel::Paste(s@),
            Input::Key { key, modifiers, down } => InputModel::Key {
                key: key@,
                modifiers: *modifiers,
                down: *down,
            },
            Input::Back => InputModel::Back,
            Input::Resized(w, h, s) => InputModel::Resized(*w, *h, *s),
            Input::Covered(px) => InputModel::Covered(*px),
            Input::Mode(m) => InputModel::Mode(*m),
            Input::Unfocused => InputModel::Unfocused,
            Input::Refocused => InputModel::Refocused,
        }
    }
}

/// Why the driver wants the session closed.
#[derive(Debug, PartialEq, Eq)]
pub enum Close {
    /// The server sent an `Error` frame: its code and its message.
    ServerError(u32, String),
    /// The server's protocol version is unusable.
    Version(u32),
    /// A frame arrived that the protocol does not allow in this direction.
    Protocol(String),
    /// The transport handed over something that was not a frame, or went
    /// away; the window's reason.
    Transport(String),
}

/// The sentence a person reads when the window stops talking to its
/// application.
pub open spec fn close_text(c: Close) -> Seq<char> {
    match c {
        Close::ServerError(code, message) => message@ + " (error "@ + dec(code as nat) + ")"@,
        Close::Version(v) => "the server speaks protocol version "@ + dec(v as nat)
            + ", which this client does not"@,
        Close::Protocol(why) => "the connection broke the protocol: "@ + why@,
        Close::Transport(why) => why@,
    }
}

impl Close {
    /// The sentence a person reads, not a debug print.
    pub fn message(&self) -> (r: String)
        ensures
            r@ == close_text(*self),
    {
        let mut v: Vec<char> = Vec::new();
        match self {
            Close::ServerError(code, message) => {
                push_str(&mut v, message.as_str());
                push_str(&mut v, " (error ");
                push_dec(&mut v, *code as u64);
                push_str(&mut v, ")");
            },
            Close::Version(n) => {
                push_str(&mut v, "the server speaks protocol version ");
                push_dec(&mut v, *n as u64);
                push_str(&mut v, ", which this client does not");
            },
            Close::Protocol(why) => {
                push_str(&mut v, "the connection broke the protocol: ");
                push_str(&mut v, why.as_str());
            },
            Close::Transport(why) => {
                push_str(&mut v, why.as_str());
            },
        }
        assert(v@ =~= close_text(*self));
        from_chars(v)
    }
}

/// A scene's asset, checked in the worker and ready for the window.
#[derive(Debug, PartialEq, Eq)]
pub enum SceneAsset {
    /// Geometry whose every index is already known to be in range.
    Mesh(Mesh),
    /// WGSL that has passed the shader verifier.
    Shader(String),
}

/// Where the last separator before `i` is, on either convention, or -1.
pub open spec fn last_sep(s: Seq<char>, i: int) -> int
    decreases i,
{
    if i <= 0 || i > s.len() {
        -1
    } else if s[i - 1] == '/' || s[i - 1] == '\\' {
        i - 1
    } else {
        last_sep(s, i - 1)
    }
}

proof fn lemma_last_sep(s: Seq<char>, i: int)
    requires
        0 <= i <= s.len(),
    ensures
        -1 <= last_sep(s, i) < i,
    decreases i,
{
    if i > 0 && !(s[i - 1] == '/' || s[i - 1] == '\\') {
        lemma_last_sep(s, i - 1);
    }
}

/// The last segment of what a file dialog called a file, on either
/// separator: the server is told the name it picked, not where it lives.
pub fn basename(name: &str) -> (r: String)
    ensures
        r@ == name@.skip(last_sep(name@, name@.len() as int) + 1),
{
    let cs = chars_of(name);
    let n = cs.len();
    let mut i = n;
    while i > 0 && cs[i - 1] != '/' && cs[i - 1] != '\\'
        invariant
            i <= n == cs@.len(),
            last_sep(cs@, i as int) == last_sep(cs@, n as int),
        decreases i,
    {
        i = i - 1;
    }
    proof {
        lemma_last_sep(cs@, n as int);
    }
    let r = string_of(&cs, i, n);
    assert(r@ =~= name@.skip(last_sep(name@, name@.len() as int) + 1));
    r
}

/// One item of a list-valued prop, as the file dialogs read it.
#[derive(Debug, PartialEq, Eq)]
pub enum Item {
    Str(String),
    Int(i64),
    /// Anything else, which the dialogs ignore.
    Other,
}

/// A node's `pick` or `save` prop, as the file dialogs read it.
#[derive(Debug, PartialEq, Eq)]
pub enum Prop {
    Str(String),
    List(Vec<Item>),
    /// Anything else, which asks for the defaults.
    Other,
}

/// The text a list item holds, if it is text.
pub open spec fn item_str(l: Seq<Item>, k: int) -> Option<Seq<char>> {
    if 0 <= k < l.len() {
        match l[k] {
            Item::Str(s) => Some(s@),
            _ => None,
        }
    } else {
        None
    }
}

/// The number a list item holds, if it is a number.
pub open spec fn item_int(l: Seq<Item>, k: int) -> Option<i64> {
    if 0 <= k < l.len() {
        match l[k] {
            Item::Int(n) => Some(n),
            _ => None,
        }
    } else {
        None
    }
}

/// What a `pick` prop asks for, as `(accept, flags, max)`: the accept list,
/// the flag bits, and the ceiling one file may not pass, which is
/// `default_max` unless the prop names a positive one, and never more than
/// `ceiling`.
pub open spec fn pick_parts(value: Prop, default_max: u64, ceiling: u64) -> (Seq<char>, i64, u64) {
    match value {
        Prop::Str(a) => (a@, 0, default_max),
        Prop::List(l) => (
            match item_str(l@, 0) {
                Some(a) => a,
                None => Seq::empty(),
            },
            match item_int(l@, 1) {
                Some(f) => f,
                None => 0,
            },
            match item_int(l@, 2) {
                Some(m) => if m > 0 {
                    if (m as u64) < ceiling {
                        m as u64
                    } else {
                        ceiling
                    }
                } else {
                    default_max
                },
                None => default_max,
            },
        ),
        Prop::Other => (Seq::empty(), 0, default_max),
    }
}

/// The open dialog a `pick` prop asks for. Bit 1 asks for the camera, bit
/// 2 for a recording, and the camera wins when both are set; bit 0 for
/// more than one file, which only a sheet of files already held can give.
pub open spec fn pick_want(value: Prop, default_max: u64, ceiling: u64) -> FileWantModel {
    let (accept, flags, max) = pick_parts(value, default_max, ceiling);
    let source = if flags & 2 != 0 {
        PickSource::Camera
    } else if flags & 4 != 0 {
        PickSource::Microphone
    } else {
        PickSource::Held
    };
    FileWantModel::Open { accept, multiple: flags & 1 != 0 && source == PickSource::Held, max, source }
}

/// [`pick_want`].
pub fn pick(value: &Prop, default_max: u64, ceiling: u64) -> (r: FileWant)
    ensures
        r@ == pick_want(*value, default_max, ceiling),
{
    let (accept, flags, max): (String, i64, u64) = match value {
        Prop::Str(a) => (a.clone(), 0, default_max),
        Prop::List(l) => {
            let accept = if l.len() > 0 {
                match &l[0] {
                    Item::Str(a) => a.clone(),
                    _ => String::new(),
                }
            } else {
                String::new()
            };
            let flags: i64 = if l.len() > 1 {
                match &l[1] {
                    Item::Int(f) => *f,
                    _ => 0,
                }
            } else {
                0
            };
            let max: u64 = if l.len() > 2 {
                match &l[2] {
                    Item::Int(m) => if *m > 0 {
                        let m = *m as u64;
                        if m < ceiling {
                            m
                        } else {
                            ceiling
                        }
                    } else {
                        default_max
                    },
                    _ => default_max,
                }
            } else {
                default_max
            };
            (accept, flags, max)
        },
        Prop::Other => (String::new(), 0, default_max),
    };
    let source = if flags & 2 != 0 {
        PickSource::Camera
    } else if flags & 4 != 0 {
        PickSource::Microphone
    } else {
        PickSource::Held
    };
    let held = match source {
        PickSource::Held => true,
        _ => false,
    };
    FileWant::Open { accept, multiple: flags & 1 != 0 && held, max, source }
}

/// The name a `save` prop suggests: the last segment of its text, or of
/// its list's first item.
pub open spec fn save_name(value: Prop) -> Seq<char> {
    let n = match value {
        Prop::Str(n) => Some(n@),
        Prop::List(l) => item_str(l@, 0),
        Prop::Other => None,
    };
    match n {
        Some(t) => t.skip(last_sep(t, t.len() as int) + 1),
        None => Seq::empty(),
    }
}

/// The save dialog a `save` prop asks for, suggesting [`save_name`], or
/// `download` when that is empty.
pub fn save(value: &Prop) -> (r: FileWant)
    ensures
        r@ == (FileWantModel::Save {
            name: if save_name(*value).len() == 0 {
                "download"@
            } else {
                save_name(*value)
            },
        }),
{
    let name = match value {
        Prop::Str(n) => basename(n.as_str()),
        Prop::List(l) => {
            if l.len() > 0 {
                match &l[0] {
                    Item::Str(n) => basename(n.as_str()),
                    _ => String::new(),
                }
            } else {
                String::new()
            }
        },
        Prop::Other => String::new(),
    };
    if name.as_str().is_empty() {
        FileWant::Save { name: "download".to_string() }
    } else {
        FileWant::Save { name }
    }
}

} // verus!
