//! What the worker answers: the driver's state every reply carries, and
//! the request's own answer. Reading what was written gives it back.

use vstd::prelude::*;

use crate::access::{
    enc_snapshot, get_access, lemma_read_snapshot, p_snapshot, put_access, snapshot_fits,
    AccessSnapshot, AccessSnapshotModel,
};
use crate::drawlist::{
    enc_drawlist, get_list, lemma_read_drawlist, p_drawlist, put_list, wf_drawlist, DrawList,
    DrawListModel,
};
use crate::driver::{Chunked, FileAsk, FileAskModel, FileWant, FileWantModel, FileWrite, FileWriteModel, PickSource};
use crate::wire::{
    at, enc_bool, enc_bytes, enc_counted, enc_f4, enc_list, enc_opt_str, enc_str, enc_u32,
    enc_u32_fn, enc_u64, enc_u8, lemma_at_split, lemma_enc_list_push, lemma_read_bool,
    lemma_read_bytes, lemma_read_counted, lemma_read_f4, lemma_read_opt_str, lemma_read_str,
    lemma_read_take, lemma_read_u32, lemma_add_assoc, lemma_read_u32_list, lemma_read_u64, lemma_read_u8, p_bool,
    p_bytes, p_counted, p_f4, p_hash, p_list, p_list_from, p_opt_str, p_str, p_u32, p_u32_fn,
    p_u64, p_u8, str_fits, wire_count, WireError, R, W,
};

verus! {

/// What every reply carries: the driver's state the window asks about
/// between requests. `ime` is four `f32` bits.
#[derive(Debug, PartialEq, Eq)]
pub struct Status {
    /// Frames to send to the server, encoded.
    pub outbound: Vec<Vec<u8>>,
    /// A frame should be drawn.
    pub needs_redraw: bool,
    /// Why the session ended, if it did.
    pub closed: Option<String>,
    /// Where an input method's candidate window goes, logical px.
    pub ime: Option<[u32; 4]>,
    /// Text the viewer copied, for the system clipboard.
    pub clipboard: Option<String>,
    /// Milliseconds until the next transition frame, if one is due.
    pub next_due_ms: Option<u32>,
    /// The pointer's shape, as its wire byte.
    pub cursor: u8,
    /// A sound is loaded.
    pub audio: bool,
    /// A picture is playing.
    pub video: bool,
    /// Dialogs the tree asked for and the window has not opened yet.
    pub files: Vec<FileAsk>,
    /// Bytes a save is owed.
    pub writes: Vec<FileWrite>,
}

pub struct StatusModel {
    pub outbound: Seq<Seq<u8>>,
    pub needs_redraw: bool,
    pub closed: Option<Seq<char>>,
    pub ime: Option<Seq<u32>>,
    pub clipboard: Option<Seq<char>>,
    pub next_due_ms: Option<u32>,
    pub cursor: u8,
    pub audio: bool,
    pub video: bool,
    pub files: Seq<FileAskModel>,
    pub writes: Seq<FileWriteModel>,
}

pub open spec fn opt_str_view(o: Option<String>) -> Option<Seq<char>> {
    match o {
        Some(s) => Some(s@),
        None => None,
    }
}

pub open spec fn opt_f4_view(o: Option<[u32; 4]>) -> Option<Seq<u32>> {
    match o {
        Some(v) => Some(v@),
        None => None,
    }
}

pub open spec fn bytes_views(v: Seq<Vec<u8>>) -> Seq<Seq<u8>> {
    v.map_values(|b: Vec<u8>| b@)
}

pub open spec fn ask_views(v: Seq<FileAsk>) -> Seq<FileAskModel> {
    v.map_values(|a: FileAsk| a@)
}

pub open spec fn write_views(v: Seq<FileWrite>) -> Seq<FileWriteModel> {
    v.map_values(|w: FileWrite| w@)
}

impl View for Status {
    type V = StatusModel;

    open spec fn view(&self) -> StatusModel {
        StatusModel {
            outbound: bytes_views(self.outbound@),
            needs_redraw: self.needs_redraw,
            closed: opt_str_view(self.closed),
            ime: opt_f4_view(self.ime),
            clipboard: opt_str_view(self.clipboard),
            next_due_ms: self.next_due_ms,
            cursor: self.cursor,
            audio: self.audio,
            video: self.video,
            files: ask_views(self.files@),
            writes: write_views(self.writes@),
        }
    }
}

/// What a reply carries besides its status, by request. Samples are `f32`
/// bits.
#[derive(Debug, PartialEq, Eq)]
pub enum Payload {
    /// Nothing more.
    Nothing,
    /// `Config`: what the sandbox enforced, or why it could not.
    Sandbox(Result<String, String>),
    /// `Hello`: the frame, encoded.
    Hello(Vec<u8>),
    /// `PendingAssets`.
    Assets(Vec<[u8; 32]>),
    /// `Paint`: the draw list, and the rows of each atlas that changed:
    /// `(edge, y0, y1, bytes)` for glyphs, `(y0, y1, bytes)` for images.
    Paint {
        list: DrawList,
        glyphs: Vec<(u32, u32, u32, Vec<u8>)>,
        images: Option<(u32, u32, Vec<u8>)>,
    },
    /// `Tick`: a transition frame is due.
    Tick(bool),
    /// `AccessTree`.
    Access(AccessSnapshot),
    /// `Audio`: interleaved frames.
    Pcm(Vec<u32>),
    /// `Picked`: the upload id for each file, in the order they came.
    Uploads(Vec<u32>),
}

pub enum PayloadModel {
    Nothing,
    Sandbox(Result<Seq<char>, Seq<char>>),
    Hello(Seq<u8>),
    Assets(Seq<Seq<u8>>),
    Paint {
        list: DrawListModel,
        glyphs: Seq<(u32, u32, u32, Seq<u8>)>,
        images: Option<(u32, u32, Seq<u8>)>,
    },
    Tick(bool),
    Access(AccessSnapshotModel),
    Pcm(Seq<u32>),
    Uploads(Seq<u32>),
}

pub open spec fn glyph_views(v: Seq<(u32, u32, u32, Vec<u8>)>) -> Seq<(u32, u32, u32, Seq<u8>)> {
    v.map_values(|g: (u32, u32, u32, Vec<u8>)| (g.0, g.1, g.2, g.3@))
}

pub open spec fn hash_views(v: Seq<[u8; 32]>) -> Seq<Seq<u8>> {
    v.map_values(|h: [u8; 32]| h@)
}

impl View for Payload {
    type V = PayloadModel;

    open spec fn view(&self) -> PayloadModel {
        match self {
            Payload::Nothing => PayloadModel::Nothing,
            Payload::Sandbox(r) => PayloadModel::Sandbox(
                match r {
                    Ok(s) => Ok(s@),
                    Err(e) => Err(e@),
                },
            ),
            Payload::Hello(b) => PayloadModel::Hello(b@),
            Payload::Assets(hs) => PayloadModel::Assets(hash_views(hs@)),
            Payload::Paint { list, glyphs, images } => PayloadModel::Paint {
                list: list@,
                glyphs: glyph_views(glyphs@),
                images: match images {
                    Some((a, b, px)) => Some((*a, *b, px@)),
                    None => None,
                },
            },
            Payload::Tick(b) => PayloadModel::Tick(*b),
            Payload::Access(a) => PayloadModel::Access(a@),
            Payload::Pcm(v) => PayloadModel::Pcm(v@),
            Payload::Uploads(v) => PayloadModel::Uploads(v@),
        }
    }
}

/// One reply.
#[derive(Debug, PartialEq, Eq)]
pub struct Reply {
    /// State after the request.
    pub status: Status,
    /// The request's own answer.
    pub payload: Payload,
}

pub struct ReplyModel {
    pub status: StatusModel,
    pub payload: PayloadModel,
}

impl View for Reply {
    type V = ReplyModel;

    open spec fn view(&self) -> ReplyModel {
        ReplyModel { status: self.status@, payload: self.payload@ }
    }
}

// ------------------------------------------------------------------ status

pub open spec fn enc_bytes_fn() -> spec_fn(Seq<u8>) -> Seq<u8> {
    |b: Seq<u8>| enc_bytes(b)
}

pub open spec fn p_bytes_fn() -> spec_fn(Seq<u8>, int) -> Result<(Seq<u8>, int), WireError> {
    |s: Seq<u8>, i: int| p_bytes(s, i)
}

pub open spec fn enc_opt_f4(v: Option<Seq<u32>>) -> Seq<u8> {
    match v {
        Some(x) => enc_bool(true) + enc_f4(x),
        None => enc_bool(false),
    }
}

pub open spec fn p_opt_f4(s: Seq<u8>, i: int) -> Result<(Option<Seq<u32>>, int), WireError> {
    match p_bool(s, i) {
        Ok((present, j)) => if present {
            match p_f4(s, j) {
                Ok((v, k)) => Ok((Some(v), k)),
                Err(e) => Err(e),
            }
        } else {
            Ok((None, j))
        },
        Err(e) => Err(e),
    }
}

pub open spec fn enc_opt_u32(v: Option<u32>) -> Seq<u8> {
    match v {
        Some(x) => enc_bool(true) + enc_u32(x),
        None => enc_bool(false),
    }
}

pub open spec fn p_opt_u32(s: Seq<u8>, i: int) -> Result<(Option<u32>, int), WireError> {
    match p_bool(s, i) {
        Ok((present, j)) => if present {
            match p_u32(s, j) {
                Ok((v, k)) => Ok((Some(v), k)),
                Err(e) => Err(e),
            }
        } else {
            Ok((None, j))
        },
        Err(e) => Err(e),
    }
}

pub open spec fn enc_want(w: FileWantModel) -> Seq<u8> {
    match w {
        FileWantModel::Open { accept, multiple, max, source } => enc_u8(0) + enc_str(accept)
            + enc_bool(multiple) + enc_u64(max) + enc_u8(source.to_u8()),
        FileWantModel::Save { name } => enc_u8(1) + enc_str(name),
    }
}

pub open spec fn enc_ask(a: FileAskModel) -> Seq<u8> {
    enc_u32(a.token) + enc_u32(a.node) + enc_want(a.want)
}

pub open spec fn enc_ask_fn() -> spec_fn(FileAskModel) -> Seq<u8> {
    |a: FileAskModel| enc_ask(a)
}

pub open spec fn p_want(s: Seq<u8>, i: int) -> Result<(FileWantModel, int), WireError> {
    match p_u8(s, i) {
        Ok((tag, j)) => if tag == 0 {
            match p_str(s, j) {
                Ok((accept, k)) => match p_bool(s, k) {
                    Ok((multiple, l)) => match p_u64(s, l) {
                        Ok((max, m)) => match p_u8(s, m) {
                            Ok((src, n)) => Ok(
                                (
                                    FileWantModel::Open {
                                        accept,
                                        multiple,
                                        max,
                                        source: PickSource::from_u8(src),
                                    },
                                    n,
                                ),
                            ),
                            Err(e) => Err(e),
                        },
                        Err(e) => Err(e),
                    },
                    Err(e) => Err(e),
                },
                Err(e) => Err(e),
            }
        } else if tag == 1 {
            match p_str(s, j) {
                Ok((name, k)) => Ok((FileWantModel::Save { name }, k)),
                Err(e) => Err(e),
            }
        } else {
            Err(WireError::UnknownTag)
        },
        Err(e) => Err(e),
    }
}

pub open spec fn p_ask(s: Seq<u8>, i: int) -> Result<(FileAskModel, int), WireError> {
    match p_u32(s, i) {
        Ok((token, j)) => match p_u32(s, j) {
            Ok((node, k)) => match p_want(s, k) {
                Ok((want, l)) => Ok((FileAskModel { token, node, want }, l)),
                Err(e) => Err(e),
            },
            Err(e) => Err(e),
        },
        Err(e) => Err(e),
    }
}

pub open spec fn p_ask_fn() -> spec_fn(Seq<u8>, int) -> Result<(FileAskModel, int), WireError> {
    |s: Seq<u8>, i: int| p_ask(s, i)
}

pub open spec fn enc_write(w: FileWriteModel) -> Seq<u8> {
    enc_u32(w.token) + enc_u8(w.flag.to_u8()) + enc_bytes(w.bytes)
}

pub open spec fn enc_write_fn() -> spec_fn(FileWriteModel) -> Seq<u8> {
    |w: FileWriteModel| enc_write(w)
}

pub open spec fn p_write(s: Seq<u8>, i: int) -> Result<(FileWriteModel, int), WireError> {
    match p_u32(s, i) {
        Ok((token, j)) => match p_u8(s, j) {
            Ok((f, k)) => match Chunked::from_u8(f) {
                Some(flag) => match p_bytes(s, k) {
                    Ok((bytes, l)) => Ok((FileWriteModel { token, flag, bytes }, l)),
                    Err(e) => Err(e),
                },
                None => Err(WireError::BadValue),
            },
            Err(e) => Err(e),
        },
        Err(e) => Err(e),
    }
}

pub open spec fn p_write_fn() -> spec_fn(Seq<u8>, int) -> Result<(FileWriteModel, int), WireError> {
    |s: Seq<u8>, i: int| p_write(s, i)
}

/// The scalar half of a status.
pub open spec fn enc_status_a(st: StatusModel) -> Seq<u8> {
    enc_counted(st.outbound, enc_bytes_fn()) + enc_bool(st.needs_redraw) + enc_opt_str(st.closed)
        + enc_opt_f4(st.ime) + enc_opt_str(st.clipboard) + enc_opt_u32(st.next_due_ms) + enc_u8(
        st.cursor,
    ) + enc_bool(st.audio) + enc_bool(st.video)
}

/// The dialogs and the writes.
pub open spec fn enc_status_b(st: StatusModel) -> Seq<u8> {
    enc_counted(st.files, enc_ask_fn()) + enc_counted(st.writes, enc_write_fn())
}

pub open spec fn enc_status(st: StatusModel) -> Seq<u8> {
    enc_status_a(st) + enc_status_b(st)
}

pub open spec fn p_status_a(s: Seq<u8>, i: int) -> Result<(StatusModel, int), WireError> {
    match p_counted(s, i, p_bytes_fn()) {
        Ok((outbound, i1)) => match p_bool(s, i1) {
            Ok((needs_redraw, i2)) => match p_opt_str(s, i2) {
                Ok((closed, i3)) => match p_opt_f4(s, i3) {
                    Ok((ime, i4)) => match p_opt_str(s, i4) {
                        Ok((clipboard, i5)) => match p_opt_u32(s, i5) {
                            Ok((next_due_ms, i6)) => match p_u8(s, i6) {
                                Ok((cursor, i7)) => match p_bool(s, i7) {
                                    Ok((audio, i8)) => match p_bool(s, i8) {
                                        Ok((video, i9)) => Ok(
                                            (
                                                StatusModel {
                                                    outbound,
                                                    needs_redraw,
                                                    closed,
                                                    ime,
                                                    clipboard,
                                                    next_due_ms,
                                                    cursor,
                                                    audio,
                                                    video,
                                                    files: Seq::empty(),
                                                    writes: Seq::empty(),
                                                },
                                                i9,
                                            ),
                                        ),
                                        Err(e) => Err(e),
                                    },
                                    Err(e) => Err(e),
                                },
                                Err(e) => Err(e),
                            },
                            Err(e) => Err(e),
                        },
                        Err(e) => Err(e),
                    },
                    Err(e) => Err(e),
                },
                Err(e) => Err(e),
            },
            Err(e) => Err(e),
        },
        Err(e) => Err(e),
    }
}

pub open spec fn p_status(s: Seq<u8>, i: int) -> Result<(StatusModel, int), WireError> {
    match p_status_a(s, i) {
        Ok((a, j)) => match p_counted(s, j, p_ask_fn()) {
            Ok((files, k)) => match p_counted(s, k, p_write_fn()) {
                Ok((writes, l)) => Ok((StatusModel { files, writes, ..a }, l)),
                Err(e) => Err(e),
            },
            Err(e) => Err(e),
        },
        Err(e) => Err(e),
    }
}

// ------------------------------------------------------------------ payload

pub open spec fn enc_hash_fn() -> spec_fn(Seq<u8>) -> Seq<u8> {
    |h: Seq<u8>| h
}

pub open spec fn p_hash_fn() -> spec_fn(Seq<u8>, int) -> Result<(Seq<u8>, int), WireError> {
    |s: Seq<u8>, i: int| p_hash(s, i)
}

pub open spec fn enc_glyph(g: (u32, u32, u32, Seq<u8>)) -> Seq<u8> {
    enc_u32(g.0) + enc_u32(g.1) + enc_u32(g.2) + enc_bytes(g.3)
}

pub open spec fn enc_glyph_fn() -> spec_fn((u32, u32, u32, Seq<u8>)) -> Seq<u8> {
    |g: (u32, u32, u32, Seq<u8>)| enc_glyph(g)
}

pub open spec fn p_glyph(s: Seq<u8>, i: int) -> Result<((u32, u32, u32, Seq<u8>), int), WireError> {
    match p_u32(s, i) {
        Ok((a, j)) => match p_u32(s, j) {
            Ok((b, k)) => match p_u32(s, k) {
                Ok((c, l)) => match p_bytes(s, l) {
                    Ok((px, m)) => Ok(((a, b, c, px), m)),
                    Err(e) => Err(e),
                },
                Err(e) => Err(e),
            },
            Err(e) => Err(e),
        },
        Err(e) => Err(e),
    }
}

pub open spec fn p_glyph_fn() -> spec_fn(Seq<u8>, int) -> Result<((u32, u32, u32, Seq<u8>), int), WireError> {
    |s: Seq<u8>, i: int| p_glyph(s, i)
}

pub open spec fn enc_images(v: Option<(u32, u32, Seq<u8>)>) -> Seq<u8> {
    match v {
        Some((a, b, px)) => enc_bool(true) + enc_u32(a) + enc_u32(b) + enc_bytes(px),
        None => enc_bool(false),
    }
}

pub open spec fn p_images(s: Seq<u8>, i: int) -> Result<(Option<(u32, u32, Seq<u8>)>, int), WireError> {
    match p_bool(s, i) {
        Ok((present, j)) => if present {
            match p_u32(s, j) {
                Ok((a, k)) => match p_u32(s, k) {
                    Ok((b, l)) => match p_bytes(s, l) {
                        Ok((px, m)) => Ok((Some((a, b, px)), m)),
                        Err(e) => Err(e),
                    },
                    Err(e) => Err(e),
                },
                Err(e) => Err(e),
            }
        } else {
            Ok((None, j))
        },
        Err(e) => Err(e),
    }
}

pub open spec fn enc_payload(p: PayloadModel) -> Seq<u8> {
    match p {
        PayloadModel::Nothing => enc_u8(0),
        PayloadModel::Sandbox(r) => enc_u8(1) + match r {
            Ok(t) => enc_bool(true) + enc_str(t),
            Err(t) => enc_bool(false) + enc_str(t),
        },
        PayloadModel::Hello(b) => enc_u8(2) + enc_bytes(b),
        PayloadModel::Assets(hs) => enc_u8(3) + enc_counted(hs, enc_hash_fn()),
        PayloadModel::Paint { list, glyphs, images } => enc_u8(4) + enc_drawlist(list)
            + enc_counted(glyphs, enc_glyph_fn()) + enc_images(images),
        PayloadModel::Tick(b) => enc_u8(5) + enc_bool(b),
        PayloadModel::Access(a) => enc_u8(6) + enc_snapshot(a),
        PayloadModel::Pcm(v) => enc_u8(7) + enc_counted(v, enc_u32_fn()),
        PayloadModel::Uploads(v) => enc_u8(8) + enc_counted(v, enc_u32_fn()),
    }
}

pub open spec fn p_paint(s: Seq<u8>, i: int) -> Result<(PayloadModel, int), WireError> {
    match p_drawlist(s, i) {
        Ok((list, j)) => match p_counted(s, j, p_glyph_fn()) {
            Ok((glyphs, k)) => match p_images(s, k) {
                Ok((images, l)) => Ok((PayloadModel::Paint { list, glyphs, images }, l)),
                Err(e) => Err(e),
            },
            Err(e) => Err(e),
        },
        Err(e) => Err(e),
    }
}

pub open spec fn p_payload_body(s: Seq<u8>, tag: u8, j: int) -> Result<(PayloadModel, int), WireError> {
    if tag == 0 {
        Ok((PayloadModel::Nothing, j))
    } else if tag == 1 {
        match p_bool(s, j) {
            Ok((ok, k)) => match p_str(s, k) {
                Ok((t, l)) => Ok(
                    (
                        PayloadModel::Sandbox(
                            if ok {
                                Ok(t)
                            } else {
                                Err(t)
                            },
                        ),
                        l,
                    ),
                ),
                Err(e) => Err(e),
            },
            Err(e) => Err(e),
        }
    } else if tag == 2 {
        match p_bytes(s, j) {
            Ok((b, k)) => Ok((PayloadModel::Hello(b), k)),
            Err(e) => Err(e),
        }
    } else if tag == 3 {
        match p_counted(s, j, p_hash_fn()) {
            Ok((hs, k)) => Ok((PayloadModel::Assets(hs), k)),
            Err(e) => Err(e),
        }
    } else if tag == 4 {
        p_paint(s, j)
    } else if tag == 5 {
        match p_bool(s, j) {
            Ok((b, k)) => Ok((PayloadModel::Tick(b), k)),
            Err(e) => Err(e),
        }
    } else if tag == 6 {
        match p_snapshot(s, j) {
            Ok((a, k)) => Ok((PayloadModel::Access(a), k)),
            Err(e) => Err(e),
        }
    } else if tag == 7 {
        match p_counted(s, j, p_u32_fn()) {
            Ok((v, k)) => Ok((PayloadModel::Pcm(v), k)),
            Err(e) => Err(e),
        }
    } else if tag == 8 {
        match p_counted(s, j, p_u32_fn()) {
            Ok((v, k)) => Ok((PayloadModel::Uploads(v), k)),
            Err(e) => Err(e),
        }
    } else {
        Err(WireError::UnknownTag)
    }
}

pub open spec fn p_payload(s: Seq<u8>, i: int) -> Result<(PayloadModel, int), WireError> {
    match p_u8(s, i) {
        Ok((tag, j)) => p_payload_body(s, tag, j),
        Err(e) => Err(e),
    }
}

pub open spec fn enc_reply(r: ReplyModel) -> Seq<u8> {
    enc_status(r.status) + enc_payload(r.payload)
}

/// What decoding a whole message gives: a status, a payload, and nothing
/// after them.
pub open spec fn p_reply(s: Seq<u8>) -> Result<ReplyModel, WireError> {
    match p_status(s, 0) {
        Ok((status, j)) => match p_payload(s, j) {
            Ok((payload, k)) => if k == s.len() {
                Ok(ReplyModel { status, payload })
            } else {
                Err(WireError::TrailingBytes)
            },
            Err(e) => Err(e),
        },
        Err(e) => Err(e),
    }
}

// ------------------------------------------------------------------ writing

fn put_opt_str(w: &mut W, o: &Option<String>)
    ensures
        final(w).buf@ == old(w).buf@ + enc_opt_str(opt_str_view(*o)),
{
    match o {
        Some(t) => w.opt_str(Some(t.as_str())),
        None => w.opt_str(None),
    }
}

fn put_outbound(w: &mut W, v: &Vec<Vec<u8>>)
    ensures
        final(w).buf@ == old(w).buf@ + enc_counted(bytes_views(v@), enc_bytes_fn()),
{
    let ghost m = bytes_views(v@);
    w.u32(wire_count(v.len()));
    let ghost s0 = w.buf@;
    let mut k: usize = 0;
    while k < v.len()
        invariant
            m == bytes_views(v@),
            k <= v@.len(),
            w.buf@ == s0 + enc_list(m.take(k as int), enc_bytes_fn()),
        decreases v.len() - k,
    {
        w.bytes(v[k].as_slice());
        proof {
            lemma_enc_list_push(m, k as int, enc_bytes_fn());
        }
        k = k + 1;
        assert(w.buf@ =~= s0 + enc_list(m.take(k as int), enc_bytes_fn()));
    }
    assert(m.take(k as int) =~= m);
}

fn put_ime(w: &mut W, v: &Option<[u32; 4]>)
    ensures
        final(w).buf@ == old(w).buf@ + enc_opt_f4(opt_f4_view(*v)),
{
    match v {
        Some(x) => {
            w.bool(true);
            w.f4(x);
            assert(w.buf@ =~= old(w).buf@ + enc_opt_f4(opt_f4_view(*v)));
        },
        None => w.bool(false),
    }
}

fn put_opt_u32(w: &mut W, v: Option<u32>)
    ensures
        final(w).buf@ == old(w).buf@ + enc_opt_u32(v),
{
    match v {
        Some(x) => {
            w.bool(true);
            w.u32(x);
            assert(w.buf@ =~= old(w).buf@ + enc_opt_u32(v));
        },
        None => w.bool(false),
    }
}

fn put_status_a(w: &mut W, st: &Status)
    ensures
        final(w).buf@ == old(w).buf@ + enc_status_a(st@),
{
    let ghost m = st@;
    let ghost s0 = w.buf@;
    put_outbound(w, &st.outbound);
    let ghost a = enc_counted(m.outbound, enc_bytes_fn());
    w.bool(st.needs_redraw);
    proof {
        lemma_add_assoc(s0, a, enc_bool(m.needs_redraw));
    }
    let ghost a = a + enc_bool(m.needs_redraw);
    put_opt_str(w, &st.closed);
    proof {
        lemma_add_assoc(s0, a, enc_opt_str(m.closed));
    }
    let ghost a = a + enc_opt_str(m.closed);
    put_ime(w, &st.ime);
    proof {
        lemma_add_assoc(s0, a, enc_opt_f4(m.ime));
    }
    let ghost a = a + enc_opt_f4(m.ime);
    put_opt_str(w, &st.clipboard);
    proof {
        lemma_add_assoc(s0, a, enc_opt_str(m.clipboard));
    }
    let ghost a = a + enc_opt_str(m.clipboard);
    put_opt_u32(w, st.next_due_ms);
    proof {
        lemma_add_assoc(s0, a, enc_opt_u32(m.next_due_ms));
    }
    let ghost a = a + enc_opt_u32(m.next_due_ms);
    w.u8(st.cursor);
    proof {
        lemma_add_assoc(s0, a, enc_u8(m.cursor));
    }
    let ghost a = a + enc_u8(m.cursor);
    w.bool(st.audio);
    proof {
        lemma_add_assoc(s0, a, enc_bool(m.audio));
    }
    let ghost a = a + enc_bool(m.audio);
    w.bool(st.video);
    proof {
        lemma_add_assoc(s0, a, enc_bool(m.video));
    }
    let ghost a = a + enc_bool(m.video);
    assert(a == enc_status_a(m));
}

fn put_ask(w: &mut W, a: &FileAsk)
    ensures
        final(w).buf@ == old(w).buf@ + enc_ask(a@),
{
    w.u32(a.token);
    w.u32(a.node);
    match &a.want {
        FileWant::Open { accept, multiple, max, source } => {
            w.u8(0);
            w.str(accept.as_str());
            w.bool(*multiple);
            w.u64(*max);
            w.u8(source.to_u8());
        },
        FileWant::Save { name } => {
            w.u8(1);
            w.str(name.as_str());
        },
    }
    assert(w.buf@ =~= old(w).buf@ + enc_ask(a@));
}

fn put_status_b(w: &mut W, st: &Status)
    ensures
        final(w).buf@ == old(w).buf@ + enc_status_b(st@),
{
    let ghost m = st@;
    w.u32(wire_count(st.files.len()));
    let ghost s0 = w.buf@;
    let mut k: usize = 0;
    while k < st.files.len()
        invariant
            m == st@,
            k <= st.files@.len(),
            w.buf@ == s0 + enc_list(m.files.take(k as int), enc_ask_fn()),
        decreases st.files.len() - k,
    {
        put_ask(w, &st.files[k]);
        proof {
            lemma_enc_list_push(m.files, k as int, enc_ask_fn());
        }
        k = k + 1;
        assert(w.buf@ =~= s0 + enc_list(m.files.take(k as int), enc_ask_fn()));
    }
    assert(m.files.take(k as int) =~= m.files);
    w.u32(wire_count(st.writes.len()));
    let ghost s1 = w.buf@;
    let mut k: usize = 0;
    while k < st.writes.len()
        invariant
            m == st@,
            k <= st.writes@.len(),
            w.buf@ == s1 + enc_list(m.writes.take(k as int), enc_write_fn()),
        decreases st.writes.len() - k,
    {
        let x = &st.writes[k];
        w.u32(x.token);
        w.u8(x.flag.to_u8());
        w.bytes(x.bytes.as_slice());
        proof {
            lemma_enc_list_push(m.writes, k as int, enc_write_fn());
        }
        k = k + 1;
        assert(w.buf@ =~= s1 + enc_list(m.writes.take(k as int), enc_write_fn()));
    }
    assert(m.writes.take(k as int) =~= m.writes);
    assert(w.buf@ =~= old(w).buf@ + enc_status_b(m));
}

fn put_u32s(w: &mut W, v: &Vec<u32>)
    ensures
        final(w).buf@ == old(w).buf@ + enc_counted(v@, enc_u32_fn()),
{
    w.u32(wire_count(v.len()));
    let ghost s0 = w.buf@;
    let mut k: usize = 0;
    while k < v.len()
        invariant
            k <= v@.len(),
            w.buf@ == s0 + enc_list(v@.take(k as int), enc_u32_fn()),
        decreases v.len() - k,
    {
        w.u32(v[k]);
        proof {
            lemma_enc_list_push(v@, k as int, enc_u32_fn());
        }
        k = k + 1;
        assert(w.buf@ =~= s0 + enc_list(v@.take(k as int), enc_u32_fn()));
    }
    assert(v@.take(k as int) =~= v@);
}

fn put_glyphs(w: &mut W, glyphs: &Vec<(u32, u32, u32, Vec<u8>)>)
    ensures
        final(w).buf@ == old(w).buf@ + enc_counted(glyph_views(glyphs@), enc_glyph_fn()),
{
    let ghost gv = glyph_views(glyphs@);
    w.u32(wire_count(glyphs.len()));
    let ghost s0 = w.buf@;
    let mut k: usize = 0;
    while k < glyphs.len()
        invariant
            gv == glyph_views(glyphs@),
            k <= glyphs@.len(),
            w.buf@ == s0 + enc_list(gv.take(k as int), enc_glyph_fn()),
        decreases glyphs.len() - k,
    {
        let g = &glyphs[k];
        w.u32(g.0);
        w.u32(g.1);
        w.u32(g.2);
        w.bytes(g.3.as_slice());
        proof {
            lemma_enc_list_push(gv, k as int, enc_glyph_fn());
        }
        k = k + 1;
        assert(w.buf@ =~= s0 + enc_list(gv.take(k as int), enc_glyph_fn()));
    }
    assert(gv.take(k as int) =~= gv);
}

fn put_paint(w: &mut W, list: &DrawList, glyphs: &Vec<(u32, u32, u32, Vec<u8>)>, images: &Option<(u32, u32, Vec<u8>)>)
    ensures
        final(w).buf@ == old(w).buf@ + enc_drawlist(list@) + enc_counted(glyph_views(glyphs@), enc_glyph_fn())
            + enc_images(
            match images {
                Some((a, b, px)) => Some((*a, *b, px@)),
                None => None,
            },
        ),
{
    put_list(w, list);
    let ghost s1 = w.buf@;
    put_glyphs(w, glyphs);
    let ghost s2 = w.buf@;
    match images {
        Some((a, b, px)) => {
            w.bool(true);
            w.u32(*a);
            w.u32(*b);
            w.bytes(px.as_slice());
        },
        None => w.bool(false),
    }
    assert(w.buf@ =~= s2 + enc_images(
        match images {
            Some((a, b, px)) => Some((*a, *b, px@)),
            None => None,
        },
    ));
}

fn put_hashes(w: &mut W, hs: &Vec<[u8; 32]>)
    ensures
        final(w).buf@ == old(w).buf@ + enc_counted(hash_views(hs@), enc_hash_fn()),
{
    let ghost hv = hash_views(hs@);
    w.u32(wire_count(hs.len()));
    let ghost s0 = w.buf@;
    let mut k: usize = 0;
    while k < hs.len()
        invariant
            hv == hash_views(hs@),
            k <= hs@.len(),
            w.buf@ == s0 + enc_list(hv.take(k as int), enc_hash_fn()),
        decreases hs.len() - k,
    {
        w.hash(&hs[k]);
        proof {
            lemma_enc_list_push(hv, k as int, enc_hash_fn());
        }
        k = k + 1;
        assert(w.buf@ =~= s0 + enc_list(hv.take(k as int), enc_hash_fn()));
    }
    assert(hv.take(k as int) =~= hv);
}

fn put_sandbox(w: &mut W, r: &Result<String, String>)
    ensures
        final(w).buf@ == old(w).buf@ + match r {
            Ok(t) => enc_bool(true) + enc_str(t@),
            Err(t) => enc_bool(false) + enc_str(t@),
        },
{
    match r {
        Ok(t) => {
            w.bool(true);
            w.str(t.as_str());
        },
        Err(t) => {
            w.bool(false);
            w.str(t.as_str());
        },
    }
    assert(w.buf@ =~= old(w).buf@ + match r {
        Ok(t) => enc_bool(true) + enc_str(t@),
        Err(t) => enc_bool(false) + enc_str(t@),
    });
}

#[verifier::spinoff_prover]
#[verifier::rlimit(60)]
fn put_payload(w: &mut W, p: &Payload)
    ensures
        final(w).buf@ == old(w).buf@ + enc_payload(p@),
{
    let ghost s0 = w.buf@;
    match p {
        Payload::Nothing => {
            w.u8(0);
        },
        Payload::Sandbox(r) => {
            w.u8(1);
            put_sandbox(w, r);
            assert(w.buf@ =~= s0 + enc_payload(p@));
        },
        Payload::Hello(b) => {
            w.u8(2);
            w.bytes(b.as_slice());
            assert(w.buf@ =~= s0 + enc_payload(p@));
        },
        Payload::Assets(hs) => {
            w.u8(3);
            put_hashes(w, hs);
            assert(w.buf@ =~= s0 + enc_payload(p@));
        },
        Payload::Paint { list, glyphs, images } => {
            w.u8(4);
            let ghost s1 = w.buf@;
            put_paint(w, list, glyphs, images);
            assert(w.buf@ =~= s0 + enc_payload(p@));
        },
        Payload::Tick(b) => {
            w.u8(5);
            w.bool(*b);
            assert(w.buf@ =~= s0 + enc_payload(p@));
        },
        Payload::Access(a) => {
            w.u8(6);
            put_access(w, a);
            assert(w.buf@ =~= s0 + enc_payload(p@));
        },
        Payload::Pcm(v) => {
            w.u8(7);
            put_u32s(w, v);
            assert(w.buf@ =~= s0 + enc_payload(p@));
        },
        Payload::Uploads(v) => {
            w.u8(8);
            put_u32s(w, v);
            assert(w.buf@ =~= s0 + enc_payload(p@));
        },
    }
}

impl Reply {
    /// The reply as bytes for the pipe.
    pub fn encode(&self) -> (out: Vec<u8>)
        ensures
            out@ == enc_reply(self@),
    {
        let mut w = W::new();
        put_status_a(&mut w, &self.status);
        put_status_b(&mut w, &self.status);
        put_payload(&mut w, &self.payload);
        assert(w.buf@ =~= enc_reply(self@));
        w.buf
    }
}

// ------------------------------------------------------------------ reading

#[verifier::loop_isolation(false)]
fn get_outbound(r: &mut R) -> (res: Result<Vec<Vec<u8>>, WireError>)
    requires
        old(r).ok(),
    ensures
        final(r).ok(),
        final(r).b == old(r).b,
        match p_counted(old(r).s(), old(r).i as int, p_bytes_fn()) {
            Ok((v, j)) => res matches Ok(x) && bytes_views(x@) == v && final(r).i == j,
            Err(e) => res matches Err(x) && x == e,
        },
{
    proof {
        reveal(p_counted);
    }
    let ghost s = r.s();
    let ghost b0 = r.b;
    let n = r.u32()?;
    let ghost j0 = r.i as int;
    let mut out: Vec<Vec<u8>> = Vec::new();
    let mut k: u32 = 0;
    while k < n
        invariant
            r.ok(),
            r.s() == s,
            r.b == b0,
            k <= n,
            p_list(s, j0, n as nat, p_bytes_fn()) == p_list_from(
                bytes_views(out@),
                s,
                r.i as int,
                (n - k) as nat,
                p_bytes_fn(),
            ),
        decreases n - k,
    {
        let x = r.bytes()?;
        let ghost before = bytes_views(out@);
        let ghost xv = x@;
        out.push(x);
        assert(bytes_views(out@) =~= before + seq![xv]);
        k = k + 1;
        proof {
            let rest = p_list(s, r.i as int, (n - k) as nat, p_bytes_fn());
            if rest is Ok {
                let (xs, e) = rest->Ok_0;
                assert(before + (seq![xv] + xs) =~= bytes_views(out@) + xs);
            }
        }
    }
    assert(bytes_views(out@) + Seq::<Seq<u8>>::empty() =~= bytes_views(out@));
    Ok(out)
}

fn get_opt_f4(r: &mut R) -> (res: Result<Option<[u32; 4]>, WireError>)
    requires
        old(r).ok(),
    ensures
        final(r).ok(),
        final(r).b == old(r).b,
        match p_opt_f4(old(r).s(), old(r).i as int) {
            Ok((v, j)) => res matches Ok(x) && opt_f4_view(x) == v && final(r).i == j,
            Err(e) => res matches Err(x) && x == e,
        },
{
    if r.bool()? {
        let v = r.f4()?;
        Ok(Some(v))
    } else {
        Ok(None)
    }
}

fn get_opt_u32(r: &mut R) -> (res: Result<Option<u32>, WireError>)
    requires
        old(r).ok(),
    ensures
        final(r).ok(),
        final(r).b == old(r).b,
        match p_opt_u32(old(r).s(), old(r).i as int) {
            Ok((v, j)) => res matches Ok(x) && x == v && final(r).i == j,
            Err(e) => res matches Err(x) && x == e,
        },
{
    if r.bool()? {
        let v = r.u32()?;
        Ok(Some(v))
    } else {
        Ok(None)
    }
}

fn get_status_a(r: &mut R) -> (res: Result<Status, WireError>)
    requires
        old(r).ok(),
    ensures
        final(r).ok(),
        final(r).b == old(r).b,
        match p_status_a(old(r).s(), old(r).i as int) {
            Ok((v, j)) => res matches Ok(x) && x@ == v && final(r).i == j,
            Err(e) => res matches Err(x) && x == e,
        },
{
    let outbound = get_outbound(r)?;
    let needs_redraw = r.bool()?;
    let closed = r.opt_str()?;
    let ime = get_opt_f4(r)?;
    let clipboard = r.opt_str()?;
    let next_due_ms = get_opt_u32(r)?;
    let cursor = r.u8()?;
    let audio = r.bool()?;
    let video = r.bool()?;
    let st = Status {
        outbound,
        needs_redraw,
        closed,
        ime,
        clipboard,
        next_due_ms,
        cursor,
        audio,
        video,
        files: Vec::new(),
        writes: Vec::new(),
    };
    assert(st@.files =~= Seq::<FileAskModel>::empty());
    assert(st@.writes =~= Seq::<FileWriteModel>::empty());
    Ok(st)
}

fn get_want(r: &mut R) -> (res: Result<FileWant, WireError>)
    requires
        old(r).ok(),
    ensures
        final(r).ok(),
        final(r).b == old(r).b,
        match p_want(old(r).s(), old(r).i as int) {
            Ok((v, j)) => res matches Ok(x) && x@ == v && final(r).i == j,
            Err(e) => res matches Err(x) && x == e,
        },
{
    let tag = r.u8()?;
    if tag == 0 {
        let accept = r.str()?;
        let multiple = r.bool()?;
        let max = r.u64()?;
        let src = r.u8()?;
        Ok(FileWant::Open { accept, multiple, max, source: PickSource::from_u8(src) })
    } else if tag == 1 {
        let name = r.str()?;
        Ok(FileWant::Save { name })
    } else {
        Err(WireError::UnknownTag)
    }
}

fn get_ask(r: &mut R) -> (res: Result<FileAsk, WireError>)
    requires
        old(r).ok(),
    ensures
        final(r).ok(),
        final(r).b == old(r).b,
        match p_ask(old(r).s(), old(r).i as int) {
            Ok((v, j)) => res matches Ok(x) && x@ == v && final(r).i == j,
            Err(e) => res matches Err(x) && x == e,
        },
{
    let token = r.u32()?;
    let node = r.u32()?;
    let want = get_want(r)?;
    Ok(FileAsk { token, node, want })
}

#[verifier::loop_isolation(false)]
fn get_asks(r: &mut R) -> (res: Result<Vec<FileAsk>, WireError>)
    requires
        old(r).ok(),
    ensures
        final(r).ok(),
        final(r).b == old(r).b,
        match p_counted(old(r).s(), old(r).i as int, p_ask_fn()) {
            Ok((v, j)) => res matches Ok(x) && ask_views(x@) == v && final(r).i == j,
            Err(e) => res matches Err(x) && x == e,
        },
{
    proof {
        reveal(p_counted);
    }
    let ghost s = r.s();
    let ghost b0 = r.b;
    let n = r.u32()?;
    let ghost j0 = r.i as int;
    let mut out: Vec<FileAsk> = Vec::new();
    let mut k: u32 = 0;
    while k < n
        invariant
            r.ok(),
            r.s() == s,
            r.b == b0,
            k <= n,
            p_list(s, j0, n as nat, p_ask_fn()) == p_list_from(
                ask_views(out@),
                s,
                r.i as int,
                (n - k) as nat,
                p_ask_fn(),
            ),
        decreases n - k,
    {
        let x = get_ask(r)?;
        let ghost before = ask_views(out@);
        let ghost xv = x@;
        out.push(x);
        assert(ask_views(out@) =~= before + seq![xv]);
        k = k + 1;
        proof {
            let rest = p_list(s, r.i as int, (n - k) as nat, p_ask_fn());
            if rest is Ok {
                let (xs, e) = rest->Ok_0;
                assert(before + (seq![xv] + xs) =~= ask_views(out@) + xs);
            }
        }
    }
    assert(ask_views(out@) + Seq::<FileAskModel>::empty() =~= ask_views(out@));
    Ok(out)
}

fn get_write(r: &mut R) -> (res: Result<FileWrite, WireError>)
    requires
        old(r).ok(),
    ensures
        final(r).ok(),
        final(r).b == old(r).b,
        match p_write(old(r).s(), old(r).i as int) {
            Ok((v, j)) => res matches Ok(x) && x@ == v && final(r).i == j,
            Err(e) => res matches Err(x) && x == e,
        },
{
    let token = r.u32()?;
    let f = r.u8()?;
    let flag = match Chunked::from_u8(f) {
        Some(c) => c,
        None => return Err(WireError::BadValue),
    };
    let bytes = r.bytes()?;
    Ok(FileWrite { token, flag, bytes })
}

#[verifier::loop_isolation(false)]
fn get_writes(r: &mut R) -> (res: Result<Vec<FileWrite>, WireError>)
    requires
        old(r).ok(),
    ensures
        final(r).ok(),
        final(r).b == old(r).b,
        match p_counted(old(r).s(), old(r).i as int, p_write_fn()) {
            Ok((v, j)) => res matches Ok(x) && write_views(x@) == v && final(r).i == j,
            Err(e) => res matches Err(x) && x == e,
        },
{
    proof {
        reveal(p_counted);
    }
    let ghost s = r.s();
    let ghost b0 = r.b;
    let n = r.u32()?;
    let ghost j0 = r.i as int;
    let mut out: Vec<FileWrite> = Vec::new();
    let mut k: u32 = 0;
    while k < n
        invariant
            r.ok(),
            r.s() == s,
            r.b == b0,
            k <= n,
            p_list(s, j0, n as nat, p_write_fn()) == p_list_from(
                write_views(out@),
                s,
                r.i as int,
                (n - k) as nat,
                p_write_fn(),
            ),
        decreases n - k,
    {
        let x = get_write(r)?;
        let ghost before = write_views(out@);
        let ghost xv = x@;
        out.push(x);
        assert(write_views(out@) =~= before + seq![xv]);
        k = k + 1;
        proof {
            let rest = p_list(s, r.i as int, (n - k) as nat, p_write_fn());
            if rest is Ok {
                let (xs, e) = rest->Ok_0;
                assert(before + (seq![xv] + xs) =~= write_views(out@) + xs);
            }
        }
    }
    assert(write_views(out@) + Seq::<FileWriteModel>::empty() =~= write_views(out@));
    Ok(out)
}

fn get_status(r: &mut R) -> (res: Result<Status, WireError>)
    requires
        old(r).ok(),
    ensures
        final(r).ok(),
        final(r).b == old(r).b,
        match p_status(old(r).s(), old(r).i as int) {
            Ok((v, j)) => res matches Ok(x) && x@ == v && final(r).i == j,
            Err(e) => res matches Err(x) && x == e,
        },
{
    let mut st = get_status_a(r)?;
    let files = get_asks(r)?;
    let writes = get_writes(r)?;
    st.files = files;
    st.writes = writes;
    Ok(st)
}

#[verifier::loop_isolation(false)]
fn get_hashes(r: &mut R) -> (res: Result<Vec<[u8; 32]>, WireError>)
    requires
        old(r).ok(),
    ensures
        final(r).ok(),
        final(r).b == old(r).b,
        match p_counted(old(r).s(), old(r).i as int, p_hash_fn()) {
            Ok((v, j)) => res matches Ok(x) && hash_views(x@) == v && final(r).i == j,
            Err(e) => res matches Err(x) && x == e,
        },
{
    proof {
        reveal(p_counted);
    }
    let ghost s = r.s();
    let ghost b0 = r.b;
    let n = r.u32()?;
    let ghost j0 = r.i as int;
    let mut out: Vec<[u8; 32]> = Vec::new();
    let mut k: u32 = 0;
    while k < n
        invariant
            r.ok(),
            r.s() == s,
            r.b == b0,
            k <= n,
            p_list(s, j0, n as nat, p_hash_fn()) == p_list_from(
                hash_views(out@),
                s,
                r.i as int,
                (n - k) as nat,
                p_hash_fn(),
            ),
        decreases n - k,
    {
        let x = r.hash()?;
        let ghost before = hash_views(out@);
        out.push(x);
        assert(hash_views(out@) =~= before + seq![x@]);
        k = k + 1;
        proof {
            let rest = p_list(s, r.i as int, (n - k) as nat, p_hash_fn());
            if rest is Ok {
                let (xs, e) = rest->Ok_0;
                assert(before + (seq![x@] + xs) =~= hash_views(out@) + xs);
            }
        }
    }
    assert(hash_views(out@) + Seq::<Seq<u8>>::empty() =~= hash_views(out@));
    Ok(out)
}

#[verifier::loop_isolation(false)]
fn get_u32s(r: &mut R) -> (res: Result<Vec<u32>, WireError>)
    requires
        old(r).ok(),
    ensures
        final(r).ok(),
        final(r).b == old(r).b,
        match p_counted(old(r).s(), old(r).i as int, p_u32_fn()) {
            Ok((v, j)) => res matches Ok(x) && x@ == v && final(r).i == j,
            Err(e) => res matches Err(x) && x == e,
        },
{
    proof {
        reveal(p_counted);
    }
    let ghost s = r.s();
    let ghost b0 = r.b;
    let n = r.u32()?;
    let ghost j0 = r.i as int;
    let mut out: Vec<u32> = Vec::new();
    let mut k: u32 = 0;
    while k < n
        invariant
            r.ok(),
            r.s() == s,
            r.b == b0,
            k <= n,
            p_list(s, j0, n as nat, p_u32_fn()) == p_list_from(
                out@,
                s,
                r.i as int,
                (n - k) as nat,
                p_u32_fn(),
            ),
        decreases n - k,
    {
        let x = r.u32()?;
        let ghost before = out@;
        out.push(x);
        k = k + 1;
        proof {
            let rest = p_list(s, r.i as int, (n - k) as nat, p_u32_fn());
            if rest is Ok {
                let (xs, e) = rest->Ok_0;
                assert(before + (seq![x] + xs) =~= out@ + xs);
            }
        }
    }
    assert(out@ + Seq::<u32>::empty() =~= out@);
    Ok(out)
}

#[verifier::loop_isolation(false)]
fn get_glyphs(r: &mut R) -> (res: Result<Vec<(u32, u32, u32, Vec<u8>)>, WireError>)
    requires
        old(r).ok(),
    ensures
        final(r).ok(),
        final(r).b == old(r).b,
        match p_counted(old(r).s(), old(r).i as int, p_glyph_fn()) {
            Ok((v, j)) => res matches Ok(x) && glyph_views(x@) == v && final(r).i == j,
            Err(e) => res matches Err(x) && x == e,
        },
{
    proof {
        reveal(p_counted);
    }
    let ghost s = r.s();
    let ghost b0 = r.b;
    let n = r.u32()?;
    let ghost j0 = r.i as int;
    let mut out: Vec<(u32, u32, u32, Vec<u8>)> = Vec::new();
    let mut k: u32 = 0;
    while k < n
        invariant
            r.ok(),
            r.s() == s,
            r.b == b0,
            k <= n,
            p_list(s, j0, n as nat, p_glyph_fn()) == p_list_from(
                glyph_views(out@),
                s,
                r.i as int,
                (n - k) as nat,
                p_glyph_fn(),
            ),
        decreases n - k,
    {
        let a = r.u32()?;
        let b = r.u32()?;
        let c = r.u32()?;
        let px = r.bytes()?;
        let ghost xv = (a, b, c, px@);
        let ghost before = glyph_views(out@);
        out.push((a, b, c, px));
        assert(glyph_views(out@) =~= before + seq![xv]);
        k = k + 1;
        proof {
            let rest = p_list(s, r.i as int, (n - k) as nat, p_glyph_fn());
            if rest is Ok {
                let (xs, e) = rest->Ok_0;
                assert(before + (seq![xv] + xs) =~= glyph_views(out@) + xs);
            }
        }
    }
    assert(glyph_views(out@) + Seq::<(u32, u32, u32, Seq<u8>)>::empty() =~= glyph_views(out@));
    Ok(out)
}

fn get_images(r: &mut R) -> (res: Result<Option<(u32, u32, Vec<u8>)>, WireError>)
    requires
        old(r).ok(),
    ensures
        final(r).ok(),
        final(r).b == old(r).b,
        match p_images(old(r).s(), old(r).i as int) {
            Ok((v, j)) => res matches Ok(x) && (match x {
                Some((a, b, px)) => Some((a, b, px@)),
                None => None,
            }) == v && final(r).i == j,
            Err(e) => res matches Err(x) && x == e,
        },
{
    if r.bool()? {
        let a = r.u32()?;
        let b = r.u32()?;
        let px = r.bytes()?;
        Ok(Some((a, b, px)))
    } else {
        Ok(None)
    }
}

fn get_paint(r: &mut R) -> (res: Result<Payload, WireError>)
    requires
        old(r).ok(),
    ensures
        final(r).ok(),
        final(r).b == old(r).b,
        match p_paint(old(r).s(), old(r).i as int) {
            Ok((v, j)) => res matches Ok(x) && x@ == v && final(r).i == j,
            Err(e) => res matches Err(x) && x == e,
        },
{
    let list = get_list(r)?;
    let glyphs = get_glyphs(r)?;
    let images = get_images(r)?;
    Ok(Payload::Paint { list, glyphs, images })
}

fn get_payload(r: &mut R) -> (res: Result<Payload, WireError>)
    requires
        old(r).ok(),
    ensures
        final(r).ok(),
        final(r).b == old(r).b,
        match p_payload(old(r).s(), old(r).i as int) {
            Ok((v, j)) => res matches Ok(x) && x@ == v && final(r).i == j,
            Err(e) => res matches Err(x) && x == e,
        },
{
    let tag = r.u8()?;
    if tag == 0 {
        Ok(Payload::Nothing)
    } else if tag == 1 {
        let ok = r.bool()?;
        let t = r.str()?;
        Ok(Payload::Sandbox(
            if ok {
                Ok(t)
            } else {
                Err(t)
            },
        ))
    } else if tag == 2 {
        let b = r.bytes()?;
        Ok(Payload::Hello(b))
    } else if tag == 3 {
        let hs = get_hashes(r)?;
        Ok(Payload::Assets(hs))
    } else if tag == 4 {
        get_paint(r)
    } else if tag == 5 {
        let b = r.bool()?;
        Ok(Payload::Tick(b))
    } else if tag == 6 {
        let a = get_access(r)?;
        Ok(Payload::Access(a))
    } else if tag == 7 {
        let v = get_u32s(r)?;
        Ok(Payload::Pcm(v))
    } else if tag == 8 {
        let v = get_u32s(r)?;
        Ok(Payload::Uploads(v))
    } else {
        Err(WireError::UnknownTag)
    }
}

impl Reply {
    /// A reply from its bytes: a status, a payload, and nothing after.
    pub fn decode(b: &[u8]) -> (res: Result<Reply, WireError>)
        ensures
            match p_reply(b@) {
                Ok(v) => res matches Ok(x) && x@ == v,
                Err(e) => res matches Err(x) && x == e,
            },
    {
        let mut r = R { b, i: 0 };
        let status = get_status(&mut r)?;
        let payload = get_payload(&mut r)?;
        r.done()?;
        Ok(Reply { status, payload })
    }
}

// ------------------------------------------------------------------ round trip

pub open spec fn want_fits(w: FileWantModel) -> bool {
    match w {
        FileWantModel::Open { accept, .. } => str_fits(accept),
        FileWantModel::Save { name } => str_fits(name),
    }
}

/// A status the wire can say whole: every count and length within a
/// `u32`, and the window's rectangle four words.
pub open spec fn status_fits(st: StatusModel) -> bool {
    &&& st.outbound.len() <= u32::MAX
    &&& forall|k: int| 0 <= k < st.outbound.len() ==> (#[trigger] st.outbound[k]).len() <= u32::MAX
    &&& st.closed matches Some(t) ==> str_fits(t)
    &&& st.ime matches Some(v) ==> v.len() == 4
    &&& st.clipboard matches Some(t) ==> str_fits(t)
    &&& st.files.len() <= u32::MAX
    &&& forall|k: int| 0 <= k < st.files.len() ==> want_fits((#[trigger] st.files[k]).want)
    &&& st.writes.len() <= u32::MAX
    &&& forall|k: int| 0 <= k < st.writes.len() ==> (#[trigger] st.writes[k]).bytes.len() <= u32::MAX
}

pub open spec fn payload_fits(p: PayloadModel) -> bool {
    match p {
        PayloadModel::Nothing => true,
        PayloadModel::Sandbox(r) => match r {
            Ok(t) => str_fits(t),
            Err(t) => str_fits(t),
        },
        PayloadModel::Hello(b) => b.len() <= u32::MAX,
        PayloadModel::Assets(hs) => hs.len() <= u32::MAX && forall|k: int|
            0 <= k < hs.len() ==> (#[trigger] hs[k]).len() == 32,
        PayloadModel::Paint { list, glyphs, images } => {
            &&& wf_drawlist(list)
            &&& glyphs.len() <= u32::MAX
            &&& forall|k: int| 0 <= k < glyphs.len() ==> (#[trigger] glyphs[k]).3.len() <= u32::MAX
            &&& images matches Some(x) ==> x.2.len() <= u32::MAX
        },
        PayloadModel::Tick(_) => true,
        PayloadModel::Access(a) => snapshot_fits(a),
        PayloadModel::Pcm(v) => v.len() <= u32::MAX,
        PayloadModel::Uploads(v) => v.len() <= u32::MAX,
    }
}

proof fn lemma_read_outbound(s: Seq<u8>, i: int, xs: Seq<Seq<u8>>)
    requires
        at(s, i, enc_counted(xs, enc_bytes_fn())),
        xs.len() <= u32::MAX,
        forall|k: int| 0 <= k < xs.len() ==> (#[trigger] xs[k]).len() <= u32::MAX,
        s.len() <= usize::MAX,
    ensures
        p_counted(s, i, p_bytes_fn()) == Ok::<(Seq<Seq<u8>>, int), WireError>(
            (xs, i + enc_counted(xs, enc_bytes_fn()).len()),
        ),
{
    assert forall|k: int, j: int|
        0 <= k < xs.len() && #[trigger] at(s, j, enc_bytes_fn()(xs[k])) implies p_bytes_fn()(s, j)
        == Ok::<(Seq<u8>, int), WireError>((xs[k], j + enc_bytes_fn()(xs[k]).len())) by {
        lemma_read_bytes(s, j, xs[k]);
    }
    lemma_read_counted(s, i, xs, enc_bytes_fn(), p_bytes_fn());
}

proof fn lemma_read_opt_f4(s: Seq<u8>, i: int, v: Option<Seq<u32>>)
    requires
        at(s, i, enc_opt_f4(v)),
        v matches Some(x) ==> x.len() == 4,
    ensures
        p_opt_f4(s, i) == Ok::<(Option<Seq<u32>>, int), WireError>((v, i + enc_opt_f4(v).len())),
{
    match v {
        Some(x) => {
            lemma_at_split(s, i, enc_bool(true), enc_f4(x));
            lemma_read_bool(s, i, true);
            lemma_read_f4(s, i + 1, x);
        },
        None => lemma_read_bool(s, i, false),
    }
}

proof fn lemma_read_opt_u32(s: Seq<u8>, i: int, v: Option<u32>)
    requires
        at(s, i, enc_opt_u32(v)),
    ensures
        p_opt_u32(s, i) == Ok::<(Option<u32>, int), WireError>((v, i + enc_opt_u32(v).len())),
{
    match v {
        Some(x) => {
            lemma_at_split(s, i, enc_bool(true), enc_u32(x));
            lemma_read_bool(s, i, true);
            lemma_read_u32(s, i + 1, x);
        },
        None => lemma_read_bool(s, i, false),
    }
}

#[verifier::rlimit(60)]
proof fn lemma_read_status_a(s: Seq<u8>, i: int, st: StatusModel)
    requires
        at(s, i, enc_status_a(st)),
        status_fits(st),
        s.len() <= usize::MAX,
    ensures
        p_status_a(s, i) == Ok::<(StatusModel, int), WireError>(
            (
                StatusModel { files: Seq::empty(), writes: Seq::empty(), ..st },
                i + enc_status_a(st).len(),
            ),
        ),
{
    let e0 = enc_counted(st.outbound, enc_bytes_fn());
    let e1 = enc_bool(st.needs_redraw);
    let e2 = enc_opt_str(st.closed);
    let e3 = enc_opt_f4(st.ime);
    let e4 = enc_opt_str(st.clipboard);
    let e5 = enc_opt_u32(st.next_due_ms);
    let e6 = enc_u8(st.cursor);
    let e7 = enc_bool(st.audio);
    let e8 = enc_bool(st.video);
    lemma_at_split(s, i, e0 + e1 + e2 + e3 + e4 + e5 + e6 + e7, e8);
    lemma_at_split(s, i, e0 + e1 + e2 + e3 + e4 + e5 + e6, e7);
    lemma_at_split(s, i, e0 + e1 + e2 + e3 + e4 + e5, e6);
    lemma_at_split(s, i, e0 + e1 + e2 + e3 + e4, e5);
    lemma_at_split(s, i, e0 + e1 + e2 + e3, e4);
    lemma_at_split(s, i, e0 + e1 + e2, e3);
    lemma_at_split(s, i, e0 + e1, e2);
    lemma_at_split(s, i, e0, e1);
    lemma_read_outbound(s, i, st.outbound);
    let j1 = i + e0.len();
    lemma_read_bool(s, j1, st.needs_redraw);
    let j2 = j1 + 1;
    lemma_read_opt_str(s, j2, st.closed);
    let j3 = j2 + e2.len();
    lemma_read_opt_f4(s, j3, st.ime);
    let j4 = j3 + e3.len();
    lemma_read_opt_str(s, j4, st.clipboard);
    let j5 = j4 + e4.len();
    lemma_read_opt_u32(s, j5, st.next_due_ms);
    let j6 = j5 + e5.len();
    lemma_read_u8(s, j6, st.cursor);
    lemma_read_bool(s, j6 + 1, st.audio);
    lemma_read_bool(s, j6 + 2, st.video);
}

proof fn lemma_read_want(s: Seq<u8>, i: int, w: FileWantModel)
    requires
        at(s, i, enc_want(w)),
        want_fits(w),
        s.len() <= usize::MAX,
    ensures
        p_want(s, i) == Ok::<(FileWantModel, int), WireError>((w, i + enc_want(w).len())),
{
    match w {
        FileWantModel::Open { accept, multiple, max, source } => {
            let a = enc_u8(0);
            let b = enc_str(accept);
            let c = enc_bool(multiple);
            let d = enc_u64(max);
            lemma_at_split(s, i, a + b + c + d, enc_u8(source.to_u8()));
            lemma_at_split(s, i, a + b + c, d);
            lemma_at_split(s, i, a + b, c);
            lemma_at_split(s, i, a, b);
            lemma_read_u8(s, i, 0);
            lemma_read_str(s, i + 1, accept);
            lemma_read_bool(s, i + 1 + b.len(), multiple);
            lemma_read_u64(s, i + 2 + b.len(), max);
            lemma_read_u8(s, i + 10 + b.len(), source.to_u8());
        },
        FileWantModel::Save { name } => {
            lemma_at_split(s, i, enc_u8(1), enc_str(name));
            lemma_read_u8(s, i, 1);
            lemma_read_str(s, i + 1, name);
        },
    }
}

proof fn lemma_read_ask(s: Seq<u8>, i: int, a: FileAskModel)
    requires
        at(s, i, enc_ask(a)),
        want_fits(a.want),
        s.len() <= usize::MAX,
    ensures
        p_ask(s, i) == Ok::<(FileAskModel, int), WireError>((a, i + enc_ask(a).len())),
{
    lemma_at_split(s, i, enc_u32(a.token) + enc_u32(a.node), enc_want(a.want));
    lemma_at_split(s, i, enc_u32(a.token), enc_u32(a.node));
    lemma_read_u32(s, i, a.token);
    lemma_read_u32(s, i + 4, a.node);
    lemma_read_want(s, i + 8, a.want);
}

proof fn lemma_read_write(s: Seq<u8>, i: int, w: FileWriteModel)
    requires
        at(s, i, enc_write(w)),
        w.bytes.len() <= u32::MAX,
        s.len() <= usize::MAX,
    ensures
        p_write(s, i) == Ok::<(FileWriteModel, int), WireError>((w, i + enc_write(w).len())),
{
    lemma_at_split(s, i, enc_u32(w.token) + enc_u8(w.flag.to_u8()), enc_bytes(w.bytes));
    lemma_at_split(s, i, enc_u32(w.token), enc_u8(w.flag.to_u8()));
    lemma_read_u32(s, i, w.token);
    lemma_read_u8(s, i + 4, w.flag.to_u8());
    lemma_read_bytes(s, i + 5, w.bytes);
}

proof fn lemma_read_status(s: Seq<u8>, i: int, st: StatusModel)
    requires
        at(s, i, enc_status(st)),
        status_fits(st),
        s.len() <= usize::MAX,
    ensures
        p_status(s, i) == Ok::<(StatusModel, int), WireError>((st, i + enc_status(st).len())),
{
    let a = enc_status_a(st);
    let f = enc_counted(st.files, enc_ask_fn());
    let w = enc_counted(st.writes, enc_write_fn());
    lemma_at_split(s, i, a, f + w);
    lemma_at_split(s, i + a.len(), f, w);
    lemma_read_status_a(s, i, st);
    assert forall|k: int, j: int|
        0 <= k < st.files.len() && #[trigger] at(s, j, enc_ask_fn()(st.files[k])) implies p_ask_fn()(
        s,
        j,
    ) == Ok::<(FileAskModel, int), WireError>((st.files[k], j + enc_ask_fn()(st.files[k]).len())) by {
        lemma_read_ask(s, j, st.files[k]);
    }
    lemma_read_counted(s, i + a.len(), st.files, enc_ask_fn(), p_ask_fn());
    assert forall|k: int, j: int|
        0 <= k < st.writes.len() && #[trigger] at(s, j, enc_write_fn()(st.writes[k])) implies p_write_fn()(
        s,
        j,
    ) == Ok::<(FileWriteModel, int), WireError>((st.writes[k], j + enc_write_fn()(st.writes[k]).len())) by {
        lemma_read_write(s, j, st.writes[k]);
    }
    lemma_read_counted(s, i + a.len() + f.len(), st.writes, enc_write_fn(), p_write_fn());
}

proof fn lemma_read_hashes(s: Seq<u8>, i: int, hs: Seq<Seq<u8>>)
    requires
        at(s, i, enc_counted(hs, enc_hash_fn())),
        hs.len() <= u32::MAX,
        forall|k: int| 0 <= k < hs.len() ==> (#[trigger] hs[k]).len() == 32,
        s.len() <= usize::MAX,
    ensures
        p_counted(s, i, p_hash_fn()) == Ok::<(Seq<Seq<u8>>, int), WireError>(
            (hs, i + enc_counted(hs, enc_hash_fn()).len()),
        ),
{
    assert forall|k: int, j: int|
        0 <= k < hs.len() && #[trigger] at(s, j, enc_hash_fn()(hs[k])) implies p_hash_fn()(s, j)
        == Ok::<(Seq<u8>, int), WireError>((hs[k], j + enc_hash_fn()(hs[k]).len())) by {
        lemma_read_take(s, j, hs[k]);
    }
    lemma_read_counted(s, i, hs, enc_hash_fn(), p_hash_fn());
}

proof fn lemma_read_glyphs(s: Seq<u8>, i: int, gs: Seq<(u32, u32, u32, Seq<u8>)>)
    requires
        at(s, i, enc_counted(gs, enc_glyph_fn())),
        gs.len() <= u32::MAX,
        forall|k: int| 0 <= k < gs.len() ==> (#[trigger] gs[k]).3.len() <= u32::MAX,
        s.len() <= usize::MAX,
    ensures
        p_counted(s, i, p_glyph_fn()) == Ok::<(Seq<(u32, u32, u32, Seq<u8>)>, int), WireError>(
            (gs, i + enc_counted(gs, enc_glyph_fn()).len()),
        ),
{
    assert forall|k: int, j: int|
        0 <= k < gs.len() && #[trigger] at(s, j, enc_glyph_fn()(gs[k])) implies p_glyph_fn()(s, j)
        == Ok::<((u32, u32, u32, Seq<u8>), int), WireError>(
        (gs[k], j + enc_glyph_fn()(gs[k]).len()),
    ) by {
        let g = gs[k];
        lemma_at_split(s, j, enc_u32(g.0) + enc_u32(g.1) + enc_u32(g.2), enc_bytes(g.3));
        lemma_at_split(s, j, enc_u32(g.0) + enc_u32(g.1), enc_u32(g.2));
        lemma_at_split(s, j, enc_u32(g.0), enc_u32(g.1));
        lemma_read_u32(s, j, g.0);
        lemma_read_u32(s, j + 4, g.1);
        lemma_read_u32(s, j + 8, g.2);
        lemma_read_bytes(s, j + 12, g.3);
    }
    lemma_read_counted(s, i, gs, enc_glyph_fn(), p_glyph_fn());
}

proof fn lemma_read_images(s: Seq<u8>, i: int, v: Option<(u32, u32, Seq<u8>)>)
    requires
        at(s, i, enc_images(v)),
        v matches Some(x) ==> x.2.len() <= u32::MAX,
        s.len() <= usize::MAX,
    ensures
        p_images(s, i) == Ok::<(Option<(u32, u32, Seq<u8>)>, int), WireError>(
            (v, i + enc_images(v).len()),
        ),
{
    match v {
        Some((a, b, px)) => {
            lemma_at_split(s, i, enc_bool(true) + enc_u32(a) + enc_u32(b), enc_bytes(px));
            lemma_at_split(s, i, enc_bool(true) + enc_u32(a), enc_u32(b));
            lemma_at_split(s, i, enc_bool(true), enc_u32(a));
            lemma_read_bool(s, i, true);
            lemma_read_u32(s, i + 1, a);
            lemma_read_u32(s, i + 5, b);
            lemma_read_bytes(s, i + 9, px);
        },
        None => lemma_read_bool(s, i, false),
    }
}

proof fn lemma_read_paint(s: Seq<u8>, i: int, p: PayloadModel)
    requires
        p is Paint,
        at(s, i, enc_drawlist(p->list) + enc_counted(p->glyphs, enc_glyph_fn()) + enc_images(p->images)),
        payload_fits(p),
        s.len() <= usize::MAX,
    ensures
        p_paint(s, i) == Ok::<(PayloadModel, int), WireError>(
            (p, i + (enc_drawlist(p->list) + enc_counted(p->glyphs, enc_glyph_fn()) + enc_images(p->images)).len()),
        ),
{
    let a = enc_drawlist(p->list);
    let g = enc_counted(p->glyphs, enc_glyph_fn());
    lemma_at_split(s, i, a + g, enc_images(p->images));
    lemma_at_split(s, i, a, g);
    lemma_read_drawlist(s, i, p->list);
    lemma_read_glyphs(s, i + a.len(), p->glyphs);
    lemma_read_images(s, i + a.len() + g.len(), p->images);
}

proof fn lemma_read_tagged(s: Seq<u8>, i: int, tag: u8, rest: Seq<u8>)
    requires
        at(s, i, enc_u8(tag) + rest),
    ensures
        p_u8(s, i) == Ok::<(u8, int), WireError>((tag, i + 1)),
        at(s, i + 1, rest),
{
    lemma_at_split(s, i, enc_u8(tag), rest);
    lemma_read_u8(s, i, tag);
}

proof fn lemma_read_sandbox(s: Seq<u8>, i: int, r: Result<Seq<char>, Seq<char>>)
    requires
        at(s, i, match r {
            Ok(t) => enc_bool(true) + enc_str(t),
            Err(t) => enc_bool(false) + enc_str(t),
        }),
        match r {
            Ok(t) => str_fits(t),
            Err(t) => str_fits(t),
        },
        s.len() <= usize::MAX,
    ensures
        p_payload_body(s, 1, i) == Ok::<(PayloadModel, int), WireError>(
            (
                PayloadModel::Sandbox(r),
                i + (match r {
                    Ok(t) => enc_bool(true) + enc_str(t),
                    Err(t) => enc_bool(false) + enc_str(t),
                }).len(),
            ),
        ),
{
    let t = match r {
        Ok(t) => t,
        Err(t) => t,
    };
    let ok = r is Ok;
    lemma_at_split(s, i, enc_bool(ok), enc_str(t));
    lemma_read_bool(s, i, ok);
    lemma_read_str(s, i + 1, t);
}

#[verifier::spinoff_prover]
proof fn lemma_read_payload_nothing(s: Seq<u8>, i: int, p: PayloadModel)
    requires
        p is Nothing,
        at(s, i, enc_payload(p)),
        payload_fits(p),
        s.len() <= usize::MAX,
    ensures
        p_payload(s, i) == Ok::<(PayloadModel, int), WireError>((p, i + enc_payload(p).len())),
{
    match p {
        PayloadModel::Nothing => {
            lemma_read_u8(s, i, 0);
        },
        _ => {},
    }
}

#[verifier::spinoff_prover]
proof fn lemma_read_payload_sandbox(s: Seq<u8>, i: int, p: PayloadModel)
    requires
        p is Sandbox,
        at(s, i, enc_payload(p)),
        payload_fits(p),
        s.len() <= usize::MAX,
    ensures
        p_payload(s, i) == Ok::<(PayloadModel, int), WireError>((p, i + enc_payload(p).len())),
{
    match p {
        PayloadModel::Sandbox(r) => {
            let rest = match r {
                Ok(t) => enc_bool(true) + enc_str(t),
                Err(t) => enc_bool(false) + enc_str(t),
            };
            lemma_read_tagged(s, i, 1, rest);
            lemma_read_sandbox(s, i + 1, r);
        },
        _ => {},
    }
}

#[verifier::spinoff_prover]
proof fn lemma_read_payload_hello(s: Seq<u8>, i: int, p: PayloadModel)
    requires
        p is Hello,
        at(s, i, enc_payload(p)),
        payload_fits(p),
        s.len() <= usize::MAX,
    ensures
        p_payload(s, i) == Ok::<(PayloadModel, int), WireError>((p, i + enc_payload(p).len())),
{
    match p {
        PayloadModel::Hello(b) => {
            lemma_read_tagged(s, i, 2, enc_bytes(b));
            lemma_read_bytes(s, i + 1, b);
        },
        _ => {},
    }
}

#[verifier::spinoff_prover]
proof fn lemma_read_payload_assets(s: Seq<u8>, i: int, p: PayloadModel)
    requires
        p is Assets,
        at(s, i, enc_payload(p)),
        payload_fits(p),
        s.len() <= usize::MAX,
    ensures
        p_payload(s, i) == Ok::<(PayloadModel, int), WireError>((p, i + enc_payload(p).len())),
{
    match p {
        PayloadModel::Assets(hs) => {
            lemma_read_tagged(s, i, 3, enc_counted(hs, enc_hash_fn()));
            lemma_read_hashes(s, i + 1, hs);
        },
        _ => {},
    }
}

#[verifier::spinoff_prover]
proof fn lemma_read_payload_paint(s: Seq<u8>, i: int, p: PayloadModel)
    requires
        p is Paint,
        at(s, i, enc_payload(p)),
        payload_fits(p),
        s.len() <= usize::MAX,
    ensures
        p_payload(s, i) == Ok::<(PayloadModel, int), WireError>((p, i + enc_payload(p).len())),
{
    match p {
        PayloadModel::Paint { list, glyphs, images } => {
            let rest = enc_drawlist(list) + enc_counted(glyphs, enc_glyph_fn()) + enc_images(images);
            assert(enc_payload(p) =~= enc_u8(4) + rest);
            lemma_read_tagged(s, i, 4, rest);
            lemma_read_paint(s, i + 1, p);
        },
        _ => {},
    }
}

#[verifier::spinoff_prover]
proof fn lemma_read_payload_tick(s: Seq<u8>, i: int, p: PayloadModel)
    requires
        p is Tick,
        at(s, i, enc_payload(p)),
        payload_fits(p),
        s.len() <= usize::MAX,
    ensures
        p_payload(s, i) == Ok::<(PayloadModel, int), WireError>((p, i + enc_payload(p).len())),
{
    match p {
        PayloadModel::Tick(b) => {
            lemma_read_tagged(s, i, 5, enc_bool(b));
            lemma_read_bool(s, i + 1, b);
        },
        _ => {},
    }
}

#[verifier::spinoff_prover]
proof fn lemma_read_payload_access(s: Seq<u8>, i: int, p: PayloadModel)
    requires
        p is Access,
        at(s, i, enc_payload(p)),
        payload_fits(p),
        s.len() <= usize::MAX,
    ensures
        p_payload(s, i) == Ok::<(PayloadModel, int), WireError>((p, i + enc_payload(p).len())),
{
    match p {
        PayloadModel::Access(a) => {
            lemma_read_tagged(s, i, 6, enc_snapshot(a));
            lemma_read_snapshot(s, i + 1, a);
        },
        _ => {},
    }
}

#[verifier::spinoff_prover]
proof fn lemma_read_payload_pcm(s: Seq<u8>, i: int, p: PayloadModel)
    requires
        p is Pcm,
        at(s, i, enc_payload(p)),
        payload_fits(p),
        s.len() <= usize::MAX,
    ensures
        p_payload(s, i) == Ok::<(PayloadModel, int), WireError>((p, i + enc_payload(p).len())),
{
    match p {
        PayloadModel::Pcm(v) => {
            lemma_read_tagged(s, i, 7, enc_counted(v, enc_u32_fn()));
            lemma_read_u32_list(s, i + 1, v);
        },
        _ => {},
    }
}

#[verifier::spinoff_prover]
proof fn lemma_read_payload_uploads(s: Seq<u8>, i: int, p: PayloadModel)
    requires
        p is Uploads,
        at(s, i, enc_payload(p)),
        payload_fits(p),
        s.len() <= usize::MAX,
    ensures
        p_payload(s, i) == Ok::<(PayloadModel, int), WireError>((p, i + enc_payload(p).len())),
{
    match p {
        PayloadModel::Uploads(v) => {
            lemma_read_tagged(s, i, 8, enc_counted(v, enc_u32_fn()));
            lemma_read_u32_list(s, i + 1, v);
        },
        _ => {},
    }
}

proof fn lemma_read_payload(s: Seq<u8>, i: int, p: PayloadModel)
    requires
        at(s, i, enc_payload(p)),
        payload_fits(p),
        s.len() <= usize::MAX,
    ensures
        p_payload(s, i) == Ok::<(PayloadModel, int), WireError>((p, i + enc_payload(p).len())),
{
    if p is Nothing {
        lemma_read_payload_nothing(s, i, p);
    }
    if p is Sandbox {
        lemma_read_payload_sandbox(s, i, p);
    }
    if p is Hello {
        lemma_read_payload_hello(s, i, p);
    }
    if p is Assets {
        lemma_read_payload_assets(s, i, p);
    }
    if p is Paint {
        lemma_read_payload_paint(s, i, p);
    }
    if p is Tick {
        lemma_read_payload_tick(s, i, p);
    }
    if p is Access {
        lemma_read_payload_access(s, i, p);
    }
    if p is Pcm {
        lemma_read_payload_pcm(s, i, p);
    }
    if p is Uploads {
        lemma_read_payload_uploads(s, i, p);
    }
}

/// Every reply the wire can say is read back as itself from the bytes
/// `encode` writes for it.
pub proof fn lemma_reply_round_trip(r: ReplyModel)
    requires
        status_fits(r.status),
        payload_fits(r.payload),
        enc_reply(r).len() <= usize::MAX,
    ensures
        p_reply(enc_reply(r)) == Ok::<ReplyModel, WireError>(r),
{
    let s = enc_reply(r);
    let a = enc_status(r.status);
    let b = enc_payload(r.payload);
    assert(at(s, 0, s)) by {
        reveal(at);
        assert(s.subrange(0, s.len() as int) =~= s);
    }
    lemma_at_split(s, 0, a, b);
    lemma_read_status(s, 0, r.status);
    lemma_read_payload(s, a.len() as int, r.payload);
}

} // verus!
