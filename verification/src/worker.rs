//! The process boundary: what the window asks the worker, and what the
//! worker answers, as bytes on a pipe.
//!
//! The wire is private to the client and unversioned — both ends are
//! always the same binary — so it is this module's own. What it promises
//! is what [`lemma_request_round_trip`] and [`lemma_reply_round_trip`]
//! state: a message read back is the message that was written.

use vstd::prelude::*;

use crate::driver::{Input, InputModel, ThemeMode};
use crate::wire::{
    R, W, WireError, at, enc_bool, enc_bytes, enc_list, enc_str, enc_u32, enc_u64, enc_u8,
    lemma_at_split, lemma_enc_list_push, lemma_read_bool, lemma_read_bytes, lemma_read_list,
    lemma_read_str, lemma_read_take, lemma_read_u32, lemma_read_u64, lemma_read_u8, p_bool,
    p_bytes, p_hash, p_list, p_list_from, p_str, p_u32, p_u64, p_u8, str_fits, wire_len,
    wire_count,
};

verus! {

// ------------------------------------------------------------------ input

pub open spec fn enc_input(m: InputModel) -> Seq<u8> {
    match m {
        InputModel::PointerMove(x, y) => enc_u8(0) + enc_u32(x) + enc_u32(y),
        InputModel::PointerDown(b) => enc_u8(1) + enc_u8(b),
        InputModel::PointerUp(b) => enc_u8(2) + enc_u8(b),
        InputModel::Wheel(x, y) => enc_u8(3) + enc_u32(x) + enc_u32(y),
        InputModel::WheelStep(x, y) => enc_u8(4) + enc_u32(x) + enc_u32(y),
        InputModel::Text(t) => enc_u8(5) + enc_str(t),
        InputModel::ImePreedit(t) => enc_u8(6) + enc_str(t),
        InputModel::ImeCommit(t) => enc_u8(7) + enc_str(t),
        InputModel::Paste(t) => enc_u8(8) + enc_str(t),
        InputModel::Key { key, modifiers, down } => enc_u8(9) + enc_str(key) + enc_u32(modifiers)
            + enc_bool(down),
        InputModel::Resized(w, h, s) => enc_u8(10) + enc_u32(w) + enc_u32(h) + enc_u32(s),
        InputModel::Mode(m) => enc_u8(11) + enc_u8(m.spec_to_u8()),
        InputModel::Unfocused => enc_u8(12),
        InputModel::PointerOut => enc_u8(13),
        InputModel::TouchDown(id, x, y) => enc_u8(14) + enc_u64(id) + enc_u32(x) + enc_u32(y),
        InputModel::TouchMove(id, x, y) => enc_u8(15) + enc_u64(id) + enc_u32(x) + enc_u32(y),
        InputModel::TouchUp(id, x, y) => enc_u8(16) + enc_u64(id) + enc_u32(x) + enc_u32(y),
        InputModel::TouchCancel(id) => enc_u8(17) + enc_u64(id),
        InputModel::Back => enc_u8(18),
        InputModel::Covered(px) => enc_u8(19) + enc_u32(px),
        InputModel::Refocused => enc_u8(20),
    }
}

pub open spec fn wf_input(m: InputModel) -> bool {
    match m {
        InputModel::Text(t) => str_fits(t),
        InputModel::ImePreedit(t) => str_fits(t),
        InputModel::ImeCommit(t) => str_fits(t),
        InputModel::Paste(t) => str_fits(t),
        InputModel::Key { key, .. } => str_fits(key),
        _ => true,
    }
}

/// Two `u32`s at `i`.
pub open spec fn p_u32x2(s: Seq<u8>, i: int) -> Result<(u32, u32, int), WireError> {
    match p_u32(s, i) {
        Ok((a, j)) => match p_u32(s, j) {
            Ok((b, k)) => Ok((a, b, k)),
            Err(e) => Err(e),
        },
        Err(e) => Err(e),
    }
}

/// A contact id and a point at `i`.
pub open spec fn p_touch(s: Seq<u8>, i: int) -> Result<(u64, u32, u32, int), WireError> {
    match p_u64(s, i) {
        Ok((id, j)) => match p_u32x2(s, j) {
            Ok((x, y, k)) => Ok((id, x, y, k)),
            Err(e) => Err(e),
        },
        Err(e) => Err(e),
    }
}

pub open spec fn p_text_input(s: Seq<u8>, i: int, tag: u8) -> Result<(InputModel, int), WireError> {
    match p_str(s, i) {
        Ok((t, j)) => Ok(
            (
                if tag == 5 {
                    InputModel::Text(t)
                } else if tag == 6 {
                    InputModel::ImePreedit(t)
                } else if tag == 7 {
                    InputModel::ImeCommit(t)
                } else {
                    InputModel::Paste(t)
                },
                j,
            ),
        ),
        Err(e) => Err(e),
    }
}

pub open spec fn p_input(s: Seq<u8>, i: int) -> Result<(InputModel, int), WireError> {
    match p_u8(s, i) {
        Err(e) => Err(e),
        Ok((tag, i)) => if tag == 0 || tag == 3 || tag == 4 {
            match p_u32x2(s, i) {
                Ok((x, y, j)) => Ok(
                    (
                        if tag == 0 {
                            InputModel::PointerMove(x, y)
                        } else if tag == 3 {
                            InputModel::Wheel(x, y)
                        } else {
                            InputModel::WheelStep(x, y)
                        },
                        j,
                    ),
                ),
                Err(e) => Err(e),
            }
        } else if tag == 1 || tag == 2 {
            match p_u8(s, i) {
                Ok((b, j)) => Ok(
                    (
                        if tag == 1 {
                            InputModel::PointerDown(b)
                        } else {
                            InputModel::PointerUp(b)
                        },
                        j,
                    ),
                ),
                Err(e) => Err(e),
            }
        } else if 5 <= tag <= 8 {
            p_text_input(s, i, tag)
        } else if tag == 9 {
            match p_str(s, i) {
                Ok((key, j)) => match p_u32(s, j) {
                    Ok((modifiers, k)) => match p_bool(s, k) {
                        Ok((down, l)) => Ok((InputModel::Key { key, modifiers, down }, l)),
                        Err(e) => Err(e),
                    },
                    Err(e) => Err(e),
                },
                Err(e) => Err(e),
            }
        } else if tag == 10 {
            match p_u32x2(s, i) {
                Ok((w, h, j)) => match p_u32(s, j) {
                    Ok((sc, k)) => Ok((InputModel::Resized(w, h, sc), k)),
                    Err(e) => Err(e),
                },
                Err(e) => Err(e),
            }
        } else if tag == 11 {
            match p_u8(s, i) {
                Ok((b, j)) => match ThemeMode::spec_from_u8(b) {
                    Some(m) => Ok((InputModel::Mode(m), j)),
                    None => Err(WireError::BadValue),
                },
                Err(e) => Err(e),
            }
        } else if tag == 12 {
            Ok((InputModel::Unfocused, i))
        } else if tag == 13 {
            Ok((InputModel::PointerOut, i))
        } else if 14 <= tag <= 16 {
            match p_touch(s, i) {
                Ok((id, x, y, j)) => Ok(
                    (
                        if tag == 14 {
                            InputModel::TouchDown(id, x, y)
                        } else if tag == 15 {
                            InputModel::TouchMove(id, x, y)
                        } else {
                            InputModel::TouchUp(id, x, y)
                        },
                        j,
                    ),
                ),
                Err(e) => Err(e),
            }
        } else if tag == 17 {
            match p_u64(s, i) {
                Ok((id, j)) => Ok((InputModel::TouchCancel(id), j)),
                Err(e) => Err(e),
            }
        } else if tag == 18 {
            Ok((InputModel::Back, i))
        } else if tag == 19 {
            match p_u32(s, i) {
                Ok((px, j)) => Ok((InputModel::Covered(px), j)),
                Err(e) => Err(e),
            }
        } else if tag == 20 {
            Ok((InputModel::Refocused, i))
        } else {
            Err(WireError::UnknownTag)
        },
    }
}

proof fn lemma_read_input_xy(s: Seq<u8>, i: int, t: u8, x: u32, y: u32)
    requires
        at(s, i, enc_u8(t) + enc_u32(x) + enc_u32(y)),
    ensures
        p_u8(s, i) == Ok::<(u8, int), WireError>((t, i + 1)),
        p_u32x2(s, i + 1) == Ok::<(u32, u32, int), WireError>((x, y, i + 9)),
{
    lemma_at_split(s, i, enc_u8(t) + enc_u32(x), enc_u32(y));
    lemma_at_split(s, i, enc_u8(t), enc_u32(x));
    lemma_read_u8(s, i, t);
    lemma_read_u32(s, i + 1, x);
    lemma_read_u32(s, i + 5, y);
}

proof fn lemma_read_input_touch(s: Seq<u8>, i: int, t: u8, id: u64, x: u32, y: u32)
    requires
        at(s, i, enc_u8(t) + enc_u64(id) + enc_u32(x) + enc_u32(y)),
    ensures
        p_u8(s, i) == Ok::<(u8, int), WireError>((t, i + 1)),
        p_touch(s, i + 1) == Ok::<(u64, u32, u32, int), WireError>((id, x, y, i + 17)),
{
    lemma_at_split(s, i, enc_u8(t) + enc_u64(id) + enc_u32(x), enc_u32(y));
    lemma_at_split(s, i, enc_u8(t) + enc_u64(id), enc_u32(x));
    lemma_at_split(s, i, enc_u8(t), enc_u64(id));
    lemma_read_u8(s, i, t);
    lemma_read_u64(s, i + 1, id);
    lemma_read_u32(s, i + 9, x);
    lemma_read_u32(s, i + 13, y);
}

proof fn lemma_read_input_text(s: Seq<u8>, i: int, t: u8, x: Seq<char>)
    requires
        at(s, i, enc_u8(t) + enc_str(x)),
        str_fits(x),
        s.len() <= usize::MAX,
    ensures
        p_u8(s, i) == Ok::<(u8, int), WireError>((t, i + 1)),
        p_str(s, i + 1) == Ok::<(Seq<char>, int), WireError>((x, i + 1 + enc_str(x).len())),
{
    lemma_at_split(s, i, enc_u8(t), enc_str(x));
    lemma_read_u8(s, i, t);
    lemma_read_str(s, i + 1, x);
}

proof fn lemma_read_input_key(s: Seq<u8>, i: int, key: Seq<char>, modifiers: u32, down: bool)
    requires
        at(s, i, enc_u8(9) + enc_str(key) + enc_u32(modifiers) + enc_bool(down)),
        str_fits(key),
        s.len() <= usize::MAX,
    ensures
        p_input(s, i) == Ok::<(InputModel, int), WireError>(
            (
                InputModel::Key { key, modifiers, down },
                i + enc_input(InputModel::Key { key, modifiers, down }).len(),
            ),
        ),
{
    let a = enc_u8(9);
    let b = enc_str(key);
    lemma_at_split(s, i, a + b + enc_u32(modifiers), enc_bool(down));
    lemma_at_split(s, i, a + b, enc_u32(modifiers));
    lemma_at_split(s, i, a, b);
    lemma_read_u8(s, i, 9);
    lemma_read_str(s, i + 1, key);
    lemma_read_u32(s, i + 1 + b.len(), modifiers);
    lemma_read_bool(s, i + 5 + b.len(), down);
}

proof fn lemma_read_input_small(s: Seq<u8>, i: int, t: u8, b: u8)
    requires
        at(s, i, enc_u8(t) + enc_u8(b)),
    ensures
        p_u8(s, i) == Ok::<(u8, int), WireError>((t, i + 1)),
        p_u8(s, i + 1) == Ok::<(u8, int), WireError>((b, i + 2)),
{
    lemma_at_split(s, i, enc_u8(t), enc_u8(b));
    lemma_read_u8(s, i, t);
    lemma_read_u8(s, i + 1, b);
}

proof fn lemma_read_input_one(s: Seq<u8>, i: int, t: u8, v: u32)
    requires
        at(s, i, enc_u8(t) + enc_u32(v)),
    ensures
        p_u8(s, i) == Ok::<(u8, int), WireError>((t, i + 1)),
        p_u32(s, i + 1) == Ok::<(u32, int), WireError>((v, i + 5)),
{
    lemma_at_split(s, i, enc_u8(t), enc_u32(v));
    lemma_read_u8(s, i, t);
    lemma_read_u32(s, i + 1, v);
}

#[verifier::spinoff_prover]
#[verifier::rlimit(40)]
pub proof fn lemma_read_input(s: Seq<u8>, i: int, m: InputModel)
    requires
        at(s, i, enc_input(m)),
        wf_input(m),
        s.len() <= usize::MAX,
    ensures
        p_input(s, i) == Ok::<(InputModel, int), WireError>((m, i + enc_input(m).len())),
{
    match m {
        InputModel::PointerMove(x, y) => lemma_read_input_xy(s, i, 0, x, y),
        InputModel::Wheel(x, y) => lemma_read_input_xy(s, i, 3, x, y),
        InputModel::WheelStep(x, y) => lemma_read_input_xy(s, i, 4, x, y),
        InputModel::PointerDown(b) => lemma_read_input_small(s, i, 1, b),
        InputModel::PointerUp(b) => lemma_read_input_small(s, i, 2, b),
        InputModel::Text(x) => lemma_read_input_text(s, i, 5, x),
        InputModel::ImePreedit(x) => lemma_read_input_text(s, i, 6, x),
        InputModel::ImeCommit(x) => lemma_read_input_text(s, i, 7, x),
        InputModel::Paste(x) => lemma_read_input_text(s, i, 8, x),
        InputModel::Key { key, modifiers, down } => lemma_read_input_key(
            s,
            i,
            key,
            modifiers,
            down,
        ),
        InputModel::Resized(w, h, sc) => {
            lemma_at_split(s, i, enc_u8(10) + enc_u32(w) + enc_u32(h), enc_u32(sc));
            lemma_read_input_xy(s, i, 10, w, h);
            lemma_read_u32(s, i + 9, sc);
        },
        InputModel::Mode(md) => lemma_read_input_small(s, i, 11, md.spec_to_u8()),
        InputModel::Unfocused => lemma_read_u8(s, i, 12),
        InputModel::PointerOut => lemma_read_u8(s, i, 13),
        InputModel::TouchDown(id, x, y) => lemma_read_input_touch(s, i, 14, id, x, y),
        InputModel::TouchMove(id, x, y) => lemma_read_input_touch(s, i, 15, id, x, y),
        InputModel::TouchUp(id, x, y) => lemma_read_input_touch(s, i, 16, id, x, y),
        InputModel::TouchCancel(id) => {
            lemma_at_split(s, i, enc_u8(17), enc_u64(id));
            lemma_read_u8(s, i, 17);
            lemma_read_u64(s, i + 1, id);
        },
        InputModel::Back => lemma_read_u8(s, i, 18),
        InputModel::Covered(px) => lemma_read_input_one(s, i, 19, px),
        InputModel::Refocused => lemma_read_u8(s, i, 20),
    }
}

/// Write `i` after what `w` holds.
pub fn put_input(w: &mut W, i: &Input)
    ensures
        final(w).buf@ == old(w).buf@ + enc_input(i@),
{
    let ghost start = w.buf@;
    match i {
        Input::PointerMove(x, y) => {
            w.u8(0);
            w.u32(*x);
            w.u32(*y);
            assert(w.buf@ =~= start + enc_input(i@));
        },
        Input::PointerDown(b) => {
            w.u8(1);
            w.u8(*b);
            assert(w.buf@ =~= start + enc_input(i@));
        },
        Input::PointerUp(b) => {
            w.u8(2);
            w.u8(*b);
            assert(w.buf@ =~= start + enc_input(i@));
        },
        Input::Wheel(x, y) => {
            w.u8(3);
            w.u32(*x);
            w.u32(*y);
            assert(w.buf@ =~= start + enc_input(i@));
        },
        Input::WheelStep(x, y) => {
            w.u8(4);
            w.u32(*x);
            w.u32(*y);
            assert(w.buf@ =~= start + enc_input(i@));
        },
        Input::Text(s) => {
            w.u8(5);
            w.str(s.as_str());
            assert(w.buf@ =~= start + enc_input(i@));
        },
        Input::ImePreedit(s) => {
            w.u8(6);
            w.str(s.as_str());
            assert(w.buf@ =~= start + enc_input(i@));
        },
        Input::ImeCommit(s) => {
            w.u8(7);
            w.str(s.as_str());
            assert(w.buf@ =~= start + enc_input(i@));
        },
        Input::Paste(s) => {
            w.u8(8);
            w.str(s.as_str());
            assert(w.buf@ =~= start + enc_input(i@));
        },
        Input::Key { key, modifiers, down } => {
            w.u8(9);
            w.str(key.as_str());
            w.u32(*modifiers);
            w.bool(*down);
            assert(w.buf@ =~= start + enc_input(i@));
        },
        Input::Resized(x, y, s) => {
            w.u8(10);
            w.u32(*x);
            w.u32(*y);
            w.u32(*s);
            assert(w.buf@ =~= start + enc_input(i@));
        },
        Input::Mode(m) => {
            w.u8(11);
            w.u8(m.to_u8());
            assert(w.buf@ =~= start + enc_input(i@));
        },
        Input::Unfocused => {
            w.u8(12);
            assert(w.buf@ =~= start + enc_input(i@));
        },
        Input::PointerOut => {
            w.u8(13);
            assert(w.buf@ =~= start + enc_input(i@));
        },
        Input::TouchDown(id, x, y) => {
            w.u8(14);
            w.u64(*id);
            w.u32(*x);
            w.u32(*y);
            assert(w.buf@ =~= start + enc_input(i@));
        },
        Input::TouchMove(id, x, y) => {
            w.u8(15);
            w.u64(*id);
            w.u32(*x);
            w.u32(*y);
            assert(w.buf@ =~= start + enc_input(i@));
        },
        Input::TouchUp(id, x, y) => {
            w.u8(16);
            w.u64(*id);
            w.u32(*x);
            w.u32(*y);
            assert(w.buf@ =~= start + enc_input(i@));
        },
        Input::TouchCancel(id) => {
            w.u8(17);
            w.u64(*id);
            assert(w.buf@ =~= start + enc_input(i@));
        },
        Input::Back => {
            w.u8(18);
            assert(w.buf@ =~= start + enc_input(i@));
        },
        Input::Covered(px) => {
            w.u8(19);
            w.u32(*px);
            assert(w.buf@ =~= start + enc_input(i@));
        },
        Input::Refocused => {
            w.u8(20);
            assert(w.buf@ =~= start + enc_input(i@));
        },
    }
}

/// Read an input at the reader's cursor.
pub fn get_input(r: &mut R) -> (res: Result<Input, WireError>)
    requires
        old(r).ok(),
    ensures
        final(r).ok(),
        final(r).b == old(r).b,
        match p_input(old(r).s(), old(r).i as int) {
            Ok((m, j)) => res matches Ok(x) && x@ == m && final(r).i == j,
            Err(e) => res matches Err(x) && x == e,
        },
{
    let tag = r.u8()?;
    if tag == 0 || tag == 3 || tag == 4 {
        let x = r.u32()?;
        let y = r.u32()?;
        Ok(
            if tag == 0 {
                Input::PointerMove(x, y)
            } else if tag == 3 {
                Input::Wheel(x, y)
            } else {
                Input::WheelStep(x, y)
            },
        )
    } else if tag == 1 || tag == 2 {
        let b = r.u8()?;
        Ok(
            if tag == 1 {
                Input::PointerDown(b)
            } else {
                Input::PointerUp(b)
            },
        )
    } else if 5 <= tag && tag <= 8 {
        let t = r.str()?;
        Ok(
            if tag == 5 {
                Input::Text(t)
            } else if tag == 6 {
                Input::ImePreedit(t)
            } else if tag == 7 {
                Input::ImeCommit(t)
            } else {
                Input::Paste(t)
            },
        )
    } else if tag == 9 {
        let key = r.str()?;
        let modifiers = r.u32()?;
        let down = r.bool()?;
        Ok(Input::Key { key, modifiers, down })
    } else if tag == 10 {
        let x = r.u32()?;
        let y = r.u32()?;
        let s = r.u32()?;
        Ok(Input::Resized(x, y, s))
    } else if tag == 11 {
        let b = r.u8()?;
        match ThemeMode::from_u8(b) {
            Some(m) => Ok(Input::Mode(m)),
            None => Err(WireError::BadValue),
        }
    } else if tag == 12 {
        Ok(Input::Unfocused)
    } else if tag == 13 {
        Ok(Input::PointerOut)
    } else if 14 <= tag && tag <= 16 {
        let id = r.u64()?;
        let x = r.u32()?;
        let y = r.u32()?;
        Ok(
            if tag == 14 {
                Input::TouchDown(id, x, y)
            } else if tag == 15 {
                Input::TouchMove(id, x, y)
            } else {
                Input::TouchUp(id, x, y)
            },
        )
    } else if tag == 17 {
        let id = r.u64()?;
        Ok(Input::TouchCancel(id))
    } else if tag == 18 {
        Ok(Input::Back)
    } else if tag == 19 {
        let px = r.u32()?;
        Ok(Input::Covered(px))
    } else if tag == 20 {
        Ok(Input::Refocused)
    } else {
        Err(WireError::UnknownTag)
    }
}

} // verus!

verus! {

// ---------------------------------------------------------------- request

/// What the window asks the worker.
#[derive(Debug, PartialEq, Eq)]
pub enum Request {
    /// Create the driver for a window of this size and scale (the bits of
    /// the window's `f32`s), granting these capabilities. First, and once.
    Config { w: u32, h: u32, scale: u32, granted: u32 },
    /// Change the grant before the session opens.
    Grant(u32),
    /// The opening frame, encoded.
    Hello,
    /// A frame from the server, as received.
    Frame(Vec<u8>),
    /// Something the viewer did.
    Input(Input),
    /// Bytes for a hash the worker asked for, verified by the window.
    AssetReady([u8; 32], Vec<u8>),
    /// A hash the window could not fetch.
    AssetFailed([u8; 32], String),
    /// Hashes the tree needs and nobody fetched yet.
    PendingAssets,
    /// Lay out and paint for a target this many device pixels.
    Paint(u32, u32),
    /// The clock moved: is a transition frame due?
    Tick,
    /// The accessibility tree as painted.
    AccessTree,
    /// An assistive technology's action on a node: `true` click, `false`
    /// focus.
    AccessAction(u64, bool),
    /// The viewer's desktop palette: its mode if it has one, and colours
    /// by role id.
    DesktopTheme(Option<ThemeMode>, Vec<(u16, u32)>),
    /// The person chose files in the dialog `token` opened: name and size
    /// each.
    Picked { token: u32, files: Vec<(String, u64)> },
    /// A dialog was dismissed without choosing.
    Dismissed(u32),
    /// Bytes of an upload, in order.
    UploadChunk { id: u32, bytes: Vec<u8>, last: bool },
    /// The window could not read what was picked.
    UploadFailed(u32, String),
    /// The person chose where a save should go, and what it is called.
    Saving { token: u32, name: String },
    /// Mix `frames` frames of `channels` samples at `rate`.
    Audio { frames: u32, channels: u8, rate: u32 },
}

pub enum RequestModel {
    Config { w: u32, h: u32, scale: u32, granted: u32 },
    Grant(u32),
    Hello,
    Frame(Seq<u8>),
    Input(InputModel),
    AssetReady(Seq<u8>, Seq<u8>),
    AssetFailed(Seq<u8>, Seq<char>),
    PendingAssets,
    Paint(u32, u32),
    Tick,
    AccessTree,
    AccessAction(u64, bool),
    DesktopTheme(Option<ThemeMode>, Seq<(u16, u32)>),
    Picked { token: u32, files: Seq<(Seq<char>, u64)> },
    Dismissed(u32),
    UploadChunk { id: u32, bytes: Seq<u8>, last: bool },
    UploadFailed(u32, Seq<char>),
    Saving { token: u32, name: Seq<char> },
    Audio { frames: u32, channels: u8, rate: u32 },
}

pub open spec fn files_model(files: Seq<(String, u64)>) -> Seq<(Seq<char>, u64)> {
    files.map_values(|f: (String, u64)| (f.0@, f.1))
}

impl View for Request {
    type V = RequestModel;

    open spec fn view(&self) -> RequestModel {
        match self {
            Request::Config { w, h, scale, granted } => RequestModel::Config {
                w: *w,
                h: *h,
                scale: *scale,
                granted: *granted,
            },
            Request::Grant(g) => RequestModel::Grant(*g),
            Request::Hello => RequestModel::Hello,
            Request::Frame(b) => RequestModel::Frame(b@),
            Request::Input(i) => RequestModel::Input(i@),
            Request::AssetReady(h, b) => RequestModel::AssetReady(h@, b@),
            Request::AssetFailed(h, why) => RequestModel::AssetFailed(h@, why@),
            Request::PendingAssets => RequestModel::PendingAssets,
            Request::Paint(w, h) => RequestModel::Paint(*w, *h),
            Request::Tick => RequestModel::Tick,
            Request::AccessTree => RequestModel::AccessTree,
            Request::AccessAction(id, click) => RequestModel::AccessAction(*id, *click),
            Request::DesktopTheme(mode, colors) => RequestModel::DesktopTheme(*mode, colors@),
            Request::Picked { token, files } => RequestModel::Picked {
                token: *token,
                files: files_model(files@),
            },
            Request::Dismissed(t) => RequestModel::Dismissed(*t),
            Request::UploadChunk { id, bytes, last } => RequestModel::UploadChunk {
                id: *id,
                bytes: bytes@,
                last: *last,
            },
            Request::UploadFailed(id, why) => RequestModel::UploadFailed(*id, why@),
            Request::Saving { token, name } => RequestModel::Saving { token: *token, name: name@ },
            Request::Audio { frames, channels, rate } => RequestModel::Audio {
                frames: *frames,
                channels: *channels,
                rate: *rate,
            },
        }
    }
}

pub open spec fn enc_color(c: (u16, u32)) -> Seq<u8> {
    enc_u32(c.0 as u32) + enc_u32(c.1)
}

pub open spec fn enc_color_fn() -> spec_fn((u16, u32)) -> Seq<u8> {
    |c: (u16, u32)| enc_color(c)
}

pub open spec fn enc_picked(f: (Seq<char>, u64)) -> Seq<u8> {
    enc_str(f.0) + enc_u64(f.1)
}

pub open spec fn enc_picked_fn() -> spec_fn((Seq<char>, u64)) -> Seq<u8> {
    |f: (Seq<char>, u64)| enc_picked(f)
}

pub open spec fn mode_byte(mode: Option<ThemeMode>) -> u8 {
    match mode {
        Some(m) => m.spec_to_u8(),
        None => 255,
    }
}

pub open spec fn enc_request(m: RequestModel) -> Seq<u8> {
    match m {
        RequestModel::Config { w, h, scale, granted } => enc_u8(0) + enc_u32(w) + enc_u32(h)
            + enc_u32(scale) + enc_u32(granted),
        RequestModel::Grant(g) => enc_u8(1) + enc_u32(g),
        RequestModel::Hello => enc_u8(2),
        RequestModel::Frame(b) => enc_u8(3) + enc_bytes(b),
        RequestModel::Input(i) => enc_u8(4) + enc_input(i),
        RequestModel::AssetReady(h, b) => enc_u8(5) + h + enc_bytes(b),
        RequestModel::AssetFailed(h, why) => enc_u8(6) + h + enc_str(why),
        RequestModel::PendingAssets => enc_u8(7),
        RequestModel::Paint(w, h) => enc_u8(8) + enc_u32(w) + enc_u32(h),
        RequestModel::Tick => enc_u8(9),
        RequestModel::AccessTree => enc_u8(10),
        RequestModel::AccessAction(id, click) => enc_u8(11) + enc_u64(id) + enc_bool(click),
        RequestModel::DesktopTheme(mode, colors) => enc_u8(12) + enc_u8(mode_byte(mode))
            + enc_u32(wire_len(colors.len())) + enc_list(colors, enc_color_fn()),
        RequestModel::Audio { frames, channels, rate } => enc_u8(13) + enc_u32(frames) + enc_u8(
            channels,
        ) + enc_u32(rate),
        RequestModel::Picked { token, files } => enc_u8(14) + enc_u32(token) + enc_u32(
            wire_len(files.len()),
        ) + enc_list(files, enc_picked_fn()),
        RequestModel::Dismissed(t) => enc_u8(15) + enc_u32(t),
        RequestModel::UploadChunk { id, bytes, last } => enc_u8(16) + enc_u32(id) + enc_bytes(
            bytes,
        ) + enc_bool(last),
        RequestModel::UploadFailed(id, why) => enc_u8(17) + enc_u32(id) + enc_str(why),
        RequestModel::Saving { token, name } => enc_u8(18) + enc_u32(token) + enc_str(name),
    }
}

/// What a request must be for its bytes to say it whole: every length
/// countable in a `u32`, every hash 32 bytes.
pub open spec fn wf_request(m: RequestModel) -> bool {
    match m {
        RequestModel::Frame(b) => b.len() <= u32::MAX,
        RequestModel::Input(i) => wf_input(i),
        RequestModel::AssetReady(h, b) => h.len() == 32 && b.len() <= u32::MAX,
        RequestModel::AssetFailed(h, why) => h.len() == 32 && str_fits(why),
        RequestModel::DesktopTheme(_, colors) => colors.len() <= u32::MAX,
        RequestModel::Picked { files, .. } => files.len() <= u32::MAX && forall|k: int|
            0 <= k < files.len() ==> str_fits(#[trigger] files[k].0),
        RequestModel::UploadChunk { bytes, .. } => bytes.len() <= u32::MAX,
        RequestModel::UploadFailed(_, why) => str_fits(why),
        RequestModel::Saving { name, .. } => str_fits(name),
        _ => true,
    }
}

pub open spec fn p_color(s: Seq<u8>, i: int) -> Result<((u16, u32), int), WireError> {
    match p_u32(s, i) {
        Ok((role, j)) => if role > u16::MAX {
            Err(WireError::BadValue)
        } else {
            match p_u32(s, j) {
                Ok((rgba, k)) => Ok(((role as u16, rgba), k)),
                Err(e) => Err(e),
            }
        },
        Err(e) => Err(e),
    }
}

pub open spec fn p_color_fn() -> spec_fn(Seq<u8>, int) -> Result<((u16, u32), int), WireError> {
    |s: Seq<u8>, i: int| p_color(s, i)
}

pub open spec fn p_picked(s: Seq<u8>, i: int) -> Result<((Seq<char>, u64), int), WireError> {
    match p_str(s, i) {
        Ok((name, j)) => match p_u64(s, j) {
            Ok((size, k)) => Ok(((name, size), k)),
            Err(e) => Err(e),
        },
        Err(e) => Err(e),
    }
}

pub open spec fn p_picked_fn() -> spec_fn(Seq<u8>, int) -> Result<((Seq<char>, u64), int), WireError> {
    |s: Seq<u8>, i: int| p_picked(s, i)
}

pub open spec fn p_theme(s: Seq<u8>, i: int) -> Result<(RequestModel, int), WireError> {
    match p_u8(s, i) {
        Ok((b, j)) => {
            let mode = if b == 255 {
                Ok(None)
            } else {
                match ThemeMode::spec_from_u8(b) {
                    Some(m) => Ok(Some(m)),
                    None => Err(WireError::BadValue),
                }
            };
            match mode {
                Ok(mode) => match p_u32(s, j) {
                    Ok((n, k)) => match p_list(s, k, n as nat, p_color_fn()) {
                        Ok((colors, l)) => Ok((RequestModel::DesktopTheme(mode, colors), l)),
                        Err(e) => Err(e),
                    },
                    Err(e) => Err(e),
                },
                Err(e) => Err(e),
            }
        },
        Err(e) => Err(e),
    }
}

pub open spec fn p_request_at(s: Seq<u8>, i: int) -> Result<(RequestModel, int), WireError> {
    match p_u8(s, i) {
        Err(e) => Err(e),
        Ok((tag, i)) => if tag == 0 {
            match p_u32x2(s, i) {
                Ok((w, h, j)) => match p_u32x2(s, j) {
                    Ok((scale, granted, k)) => Ok(
                        (RequestModel::Config { w, h, scale, granted }, k),
                    ),
                    Err(e) => Err(e),
                },
                Err(e) => Err(e),
            }
        } else if tag == 1 || tag == 15 {
            match p_u32(s, i) {
                Ok((v, j)) => Ok(
                    (
                        if tag == 1 {
                            RequestModel::Grant(v)
                        } else {
                            RequestModel::Dismissed(v)
                        },
                        j,
                    ),
                ),
                Err(e) => Err(e),
            }
        } else if tag == 2 {
            Ok((RequestModel::Hello, i))
        } else if tag == 3 {
            match p_bytes(s, i) {
                Ok((b, j)) => Ok((RequestModel::Frame(b), j)),
                Err(e) => Err(e),
            }
        } else if tag == 4 {
            match p_input(s, i) {
                Ok((m, j)) => Ok((RequestModel::Input(m), j)),
                Err(e) => Err(e),
            }
        } else if tag == 5 {
            match p_hash(s, i) {
                Ok((h, j)) => match p_bytes(s, j) {
                    Ok((b, k)) => Ok((RequestModel::AssetReady(h, b), k)),
                    Err(e) => Err(e),
                },
                Err(e) => Err(e),
            }
        } else if tag == 6 {
            match p_hash(s, i) {
                Ok((h, j)) => match p_str(s, j) {
                    Ok((why, k)) => Ok((RequestModel::AssetFailed(h, why), k)),
                    Err(e) => Err(e),
                },
                Err(e) => Err(e),
            }
        } else if tag == 7 {
            Ok((RequestModel::PendingAssets, i))
        } else if tag == 8 {
            match p_u32x2(s, i) {
                Ok((w, h, j)) => Ok((RequestModel::Paint(w, h), j)),
                Err(e) => Err(e),
            }
        } else if tag == 9 {
            Ok((RequestModel::Tick, i))
        } else if tag == 10 {
            Ok((RequestModel::AccessTree, i))
        } else if tag == 11 {
            match p_u64(s, i) {
                Ok((id, j)) => match p_bool(s, j) {
                    Ok((click, k)) => Ok((RequestModel::AccessAction(id, click), k)),
                    Err(e) => Err(e),
                },
                Err(e) => Err(e),
            }
        } else if tag == 12 {
            p_theme(s, i)
        } else if tag == 13 {
            match p_u32(s, i) {
                Ok((frames, j)) => match p_u8(s, j) {
                    Ok((channels, k)) => match p_u32(s, k) {
                        Ok((rate, l)) => Ok((RequestModel::Audio { frames, channels, rate }, l)),
                        Err(e) => Err(e),
                    },
                    Err(e) => Err(e),
                },
                Err(e) => Err(e),
            }
        } else if tag == 14 {
            match p_u32x2(s, i) {
                Ok((token, n, j)) => match p_list(s, j, n as nat, p_picked_fn()) {
                    Ok((files, k)) => Ok((RequestModel::Picked { token, files }, k)),
                    Err(e) => Err(e),
                },
                Err(e) => Err(e),
            }
        } else if tag == 16 {
            match p_u32(s, i) {
                Ok((id, j)) => match p_bytes(s, j) {
                    Ok((bytes, k)) => match p_bool(s, k) {
                        Ok((last, l)) => Ok((RequestModel::UploadChunk { id, bytes, last }, l)),
                        Err(e) => Err(e),
                    },
                    Err(e) => Err(e),
                },
                Err(e) => Err(e),
            }
        } else if tag == 17 || tag == 18 {
            match p_u32(s, i) {
                Ok((v, j)) => match p_str(s, j) {
                    Ok((t, k)) => Ok(
                        (
                            if tag == 17 {
                                RequestModel::UploadFailed(v, t)
                            } else {
                                RequestModel::Saving { token: v, name: t }
                            },
                            k,
                        ),
                    ),
                    Err(e) => Err(e),
                },
                Err(e) => Err(e),
            }
        } else {
            Err(WireError::UnknownTag)
        },
    }
}

/// A whole message: the request, and nothing after it.
pub open spec fn p_request(s: Seq<u8>) -> Result<RequestModel, WireError> {
    match p_request_at(s, 0) {
        Ok((m, j)) => if j == s.len() {
            Ok(m)
        } else {
            Err(WireError::TrailingBytes)
        },
        Err(e) => Err(e),
    }
}

} // verus!

verus! {

proof fn lemma_read_color(s: Seq<u8>, j: int, c: (u16, u32))
    requires
        at(s, j, enc_color(c)),
    ensures
        p_color(s, j) == Ok::<((u16, u32), int), WireError>((c, j + 8)),
{
    lemma_at_split(s, j, enc_u32(c.0 as u32), enc_u32(c.1));
    lemma_read_u32(s, j, c.0 as u32);
    lemma_read_u32(s, j + 4, c.1);
}

proof fn lemma_read_picked(s: Seq<u8>, j: int, f: (Seq<char>, u64))
    requires
        at(s, j, enc_picked(f)),
        str_fits(f.0),
        s.len() <= usize::MAX,
    ensures
        p_picked(s, j) == Ok::<((Seq<char>, u64), int), WireError>((f, j + enc_picked(f).len())),
{
    lemma_at_split(s, j, enc_str(f.0), enc_u64(f.1));
    lemma_read_str(s, j, f.0);
    lemma_read_u64(s, j + enc_str(f.0).len(), f.1);
}

proof fn lemma_read_theme(s: Seq<u8>, i: int, mode: Option<ThemeMode>, colors: Seq<(u16, u32)>)
    requires
        at(
            s,
            i,
            enc_u8(mode_byte(mode)) + enc_u32(wire_len(colors.len())) + enc_list(
                colors,
                enc_color_fn(),
            ),
        ),
        colors.len() <= u32::MAX,
    ensures
        p_theme(s, i) == Ok::<(RequestModel, int), WireError>(
            (
                RequestModel::DesktopTheme(mode, colors),
                i + 5 + enc_list(colors, enc_color_fn()).len(),
            ),
        ),
{
    let a = enc_u8(mode_byte(mode));
    let b = enc_u32(wire_len(colors.len()));
    lemma_at_split(s, i, a + b, enc_list(colors, enc_color_fn()));
    lemma_at_split(s, i, a, b);
    lemma_read_u8(s, i, mode_byte(mode));
    lemma_read_u32(s, i + 1, wire_len(colors.len()));
    assert forall|k: int, j: int|
        0 <= k < colors.len() && #[trigger] at(s, j, enc_color_fn()(colors[k])) implies p_color_fn()(
        s,
        j,
    ) == Ok::<((u16, u32), int), WireError>((colors[k], j + enc_color_fn()(colors[k]).len())) by {
        lemma_read_color(s, j, colors[k]);
    }
    lemma_read_list(s, i + 5, colors, enc_color_fn(), p_color_fn());
}

proof fn lemma_read_picked_list(s: Seq<u8>, i: int, token: u32, files: Seq<(Seq<char>, u64)>)
    requires
        at(s, i, enc_u32(token) + enc_u32(wire_len(files.len())) + enc_list(files, enc_picked_fn())),
        files.len() <= u32::MAX,
        forall|k: int| 0 <= k < files.len() ==> str_fits(#[trigger] files[k].0),
        s.len() <= usize::MAX,
    ensures
        p_u32x2(s, i) == Ok::<(u32, u32, int), WireError>((token, files.len() as u32, i + 8)),
        p_list(s, i + 8, files.len(), p_picked_fn()) == Ok::<
            (Seq<(Seq<char>, u64)>, int),
            WireError,
        >((files, i + 8 + enc_list(files, enc_picked_fn()).len())),
{
    let a = enc_u32(token);
    let b = enc_u32(wire_len(files.len()));
    lemma_at_split(s, i, a + b, enc_list(files, enc_picked_fn()));
    lemma_at_split(s, i, a, b);
    lemma_read_u32(s, i, token);
    lemma_read_u32(s, i + 4, wire_len(files.len()));
    assert forall|k: int, j: int|
        0 <= k < files.len() && #[trigger] at(s, j, enc_picked_fn()(files[k])) implies p_picked_fn()(
        s,
        j,
    ) == Ok::<((Seq<char>, u64), int), WireError>(
        (files[k], j + enc_picked_fn()(files[k]).len()),
    ) by {
        lemma_read_picked(s, j, files[k]);
    }
    lemma_read_list(s, i + 8, files, enc_picked_fn(), p_picked_fn());
}

proof fn lemma_read_request_0(s: Seq<u8>, i: int, m: RequestModel)
    requires
        at(s, i, enc_request(m)),
        wf_request(m),
        s.len() <= usize::MAX,
        m is Config,
    ensures
        p_request_at(s, i) == Ok::<(RequestModel, int), WireError>((m, i + enc_request(m).len())),
{
    match m {
        RequestModel::Config { w, h, scale, granted } => {
            let t = enc_u8(0);
            lemma_at_split(s, i, t + enc_u32(w) + enc_u32(h) + enc_u32(scale), enc_u32(granted));
            lemma_at_split(s, i, t + enc_u32(w) + enc_u32(h), enc_u32(scale));
            lemma_at_split(s, i, t + enc_u32(w), enc_u32(h));
            lemma_at_split(s, i, t, enc_u32(w));
            lemma_read_u8(s, i, 0);
            lemma_read_u32(s, i + 1, w);
            lemma_read_u32(s, i + 5, h);
            lemma_read_u32(s, i + 9, scale);
            lemma_read_u32(s, i + 13, granted);
        }
        _ => {},
    }
}

proof fn lemma_read_request_1(s: Seq<u8>, i: int, m: RequestModel)
    requires
        at(s, i, enc_request(m)),
        wf_request(m),
        s.len() <= usize::MAX,
        m is Grant || m is Dismissed,
    ensures
        p_request_at(s, i) == Ok::<(RequestModel, int), WireError>((m, i + enc_request(m).len())),
{
    match m {
        RequestModel::Grant(v) | RequestModel::Dismissed(v) => {
            let tag: u8 = if m is Grant {
                1
            } else {
                15
            };
            lemma_at_split(s, i, enc_u8(tag), enc_u32(v));
            lemma_read_u8(s, i, tag);
            lemma_read_u32(s, i + 1, v);
        }
        _ => {},
    }
}

proof fn lemma_read_request_2(s: Seq<u8>, i: int, m: RequestModel)
    requires
        at(s, i, enc_request(m)),
        wf_request(m),
        s.len() <= usize::MAX,
        m is Hello,
    ensures
        p_request_at(s, i) == Ok::<(RequestModel, int), WireError>((m, i + enc_request(m).len())),
{
    match m {
        RequestModel::Hello => lemma_read_u8(s, i, 2),
        _ => {},
    }
}

proof fn lemma_read_request_3(s: Seq<u8>, i: int, m: RequestModel)
    requires
        at(s, i, enc_request(m)),
        wf_request(m),
        s.len() <= usize::MAX,
        m is Frame,
    ensures
        p_request_at(s, i) == Ok::<(RequestModel, int), WireError>((m, i + enc_request(m).len())),
{
    match m {
        RequestModel::Frame(b) => {
            lemma_at_split(s, i, enc_u8(3), enc_bytes(b));
            lemma_read_u8(s, i, 3);
            lemma_read_bytes(s, i + 1, b);
        }
        _ => {},
    }
}

proof fn lemma_read_request_4(s: Seq<u8>, i: int, m: RequestModel)
    requires
        at(s, i, enc_request(m)),
        wf_request(m),
        s.len() <= usize::MAX,
        m is Input,
    ensures
        p_request_at(s, i) == Ok::<(RequestModel, int), WireError>((m, i + enc_request(m).len())),
{
    match m {
        RequestModel::Input(x) => {
            lemma_at_split(s, i, enc_u8(4), enc_input(x));
            lemma_read_u8(s, i, 4);
            lemma_read_input(s, i + 1, x);
        }
        _ => {},
    }
}

proof fn lemma_read_request_5(s: Seq<u8>, i: int, m: RequestModel)
    requires
        at(s, i, enc_request(m)),
        wf_request(m),
        s.len() <= usize::MAX,
        m is AssetReady,
    ensures
        p_request_at(s, i) == Ok::<(RequestModel, int), WireError>((m, i + enc_request(m).len())),
{
    match m {
        RequestModel::AssetReady(h, b) => {
            lemma_at_split(s, i, enc_u8(5) + h, enc_bytes(b));
            lemma_at_split(s, i, enc_u8(5), h);
            lemma_read_u8(s, i, 5);
            lemma_read_take(s, i + 1, h);
            lemma_read_bytes(s, i + 33, b);
        }
        _ => {},
    }
}

proof fn lemma_read_request_6(s: Seq<u8>, i: int, m: RequestModel)
    requires
        at(s, i, enc_request(m)),
        wf_request(m),
        s.len() <= usize::MAX,
        m is AssetFailed,
    ensures
        p_request_at(s, i) == Ok::<(RequestModel, int), WireError>((m, i + enc_request(m).len())),
{
    match m {
        RequestModel::AssetFailed(h, why) => {
            lemma_at_split(s, i, enc_u8(6) + h, enc_str(why));
            lemma_at_split(s, i, enc_u8(6), h);
            lemma_read_u8(s, i, 6);
            lemma_read_take(s, i + 1, h);
            lemma_read_str(s, i + 33, why);
        }
        _ => {},
    }
}

proof fn lemma_read_request_7(s: Seq<u8>, i: int, m: RequestModel)
    requires
        at(s, i, enc_request(m)),
        wf_request(m),
        s.len() <= usize::MAX,
        m is PendingAssets,
    ensures
        p_request_at(s, i) == Ok::<(RequestModel, int), WireError>((m, i + enc_request(m).len())),
{
    match m {
        RequestModel::PendingAssets => lemma_read_u8(s, i, 7),
        _ => {},
    }
}

proof fn lemma_read_request_8(s: Seq<u8>, i: int, m: RequestModel)
    requires
        at(s, i, enc_request(m)),
        wf_request(m),
        s.len() <= usize::MAX,
        m is Paint,
    ensures
        p_request_at(s, i) == Ok::<(RequestModel, int), WireError>((m, i + enc_request(m).len())),
{
    match m {
        RequestModel::Paint(w, h) => {
            lemma_at_split(s, i, enc_u8(8) + enc_u32(w), enc_u32(h));
            lemma_at_split(s, i, enc_u8(8), enc_u32(w));
            lemma_read_u8(s, i, 8);
            lemma_read_u32(s, i + 1, w);
            lemma_read_u32(s, i + 5, h);
        }
        _ => {},
    }
}

proof fn lemma_read_request_9(s: Seq<u8>, i: int, m: RequestModel)
    requires
        at(s, i, enc_request(m)),
        wf_request(m),
        s.len() <= usize::MAX,
        m is Tick,
    ensures
        p_request_at(s, i) == Ok::<(RequestModel, int), WireError>((m, i + enc_request(m).len())),
{
    match m {
        RequestModel::Tick => lemma_read_u8(s, i, 9),
        _ => {},
    }
}

proof fn lemma_read_request_10(s: Seq<u8>, i: int, m: RequestModel)
    requires
        at(s, i, enc_request(m)),
        wf_request(m),
        s.len() <= usize::MAX,
        m is AccessTree,
    ensures
        p_request_at(s, i) == Ok::<(RequestModel, int), WireError>((m, i + enc_request(m).len())),
{
    match m {
        RequestModel::AccessTree => lemma_read_u8(s, i, 10),
        _ => {},
    }
}

proof fn lemma_read_request_11(s: Seq<u8>, i: int, m: RequestModel)
    requires
        at(s, i, enc_request(m)),
        wf_request(m),
        s.len() <= usize::MAX,
        m is AccessAction,
    ensures
        p_request_at(s, i) == Ok::<(RequestModel, int), WireError>((m, i + enc_request(m).len())),
{
    match m {
        RequestModel::AccessAction(id, click) => {
            lemma_at_split(s, i, enc_u8(11) + enc_u64(id), enc_bool(click));
            lemma_at_split(s, i, enc_u8(11), enc_u64(id));
            lemma_read_u8(s, i, 11);
            lemma_read_u64(s, i + 1, id);
            lemma_read_bool(s, i + 9, click);
        }
        _ => {},
    }
}

proof fn lemma_read_request_12(s: Seq<u8>, i: int, m: RequestModel)
    requires
        at(s, i, enc_request(m)),
        wf_request(m),
        s.len() <= usize::MAX,
        m is DesktopTheme,
    ensures
        p_request_at(s, i) == Ok::<(RequestModel, int), WireError>((m, i + enc_request(m).len())),
{
    match m {
        RequestModel::DesktopTheme(mode, colors) => {
            let rest = enc_u8(mode_byte(mode)) + enc_u32(wire_len(colors.len())) + enc_list(
                colors,
                enc_color_fn(),
            );
            assert(enc_request(m) =~= enc_u8(12) + rest);
            lemma_at_split(s, i, enc_u8(12), rest);
            lemma_read_u8(s, i, 12);
            lemma_read_theme(s, i + 1, mode, colors);
        }
        _ => {},
    }
}

proof fn lemma_read_request_13(s: Seq<u8>, i: int, m: RequestModel)
    requires
        at(s, i, enc_request(m)),
        wf_request(m),
        s.len() <= usize::MAX,
        m is Audio,
    ensures
        p_request_at(s, i) == Ok::<(RequestModel, int), WireError>((m, i + enc_request(m).len())),
{
    match m {
        RequestModel::Audio { frames, channels, rate } => {
            let t = enc_u8(13);
            lemma_at_split(s, i, t + enc_u32(frames) + enc_u8(channels), enc_u32(rate));
            lemma_at_split(s, i, t + enc_u32(frames), enc_u8(channels));
            lemma_at_split(s, i, t, enc_u32(frames));
            lemma_read_u8(s, i, 13);
            lemma_read_u32(s, i + 1, frames);
            lemma_read_u8(s, i + 5, channels);
            lemma_read_u32(s, i + 6, rate);
        }
        _ => {},
    }
}

proof fn lemma_read_request_14(s: Seq<u8>, i: int, m: RequestModel)
    requires
        at(s, i, enc_request(m)),
        wf_request(m),
        s.len() <= usize::MAX,
        m is Picked,
    ensures
        p_request_at(s, i) == Ok::<(RequestModel, int), WireError>((m, i + enc_request(m).len())),
{
    match m {
        RequestModel::Picked { token, files } => {
            let rest = enc_u32(token) + enc_u32(wire_len(files.len())) + enc_list(
                files,
                enc_picked_fn(),
            );
            assert(enc_request(m) =~= enc_u8(14) + rest);
            lemma_at_split(s, i, enc_u8(14), rest);
            lemma_read_u8(s, i, 14);
            lemma_read_picked_list(s, i + 1, token, files);
        }
        _ => {},
    }
}

#[verifier::rlimit(60)]
proof fn lemma_read_request_15(s: Seq<u8>, i: int, m: RequestModel)
    requires
        at(s, i, enc_request(m)),
        wf_request(m),
        s.len() <= usize::MAX,
        m is UploadChunk,
    ensures
        p_request_at(s, i) == Ok::<(RequestModel, int), WireError>((m, i + enc_request(m).len())),
{
    match m {
        RequestModel::UploadChunk { id, bytes, last } => {
            let t = enc_u8(16);
            lemma_at_split(s, i, t + enc_u32(id) + enc_bytes(bytes), enc_bool(last));
            lemma_at_split(s, i, t + enc_u32(id), enc_bytes(bytes));
            lemma_at_split(s, i, t, enc_u32(id));
            lemma_read_u8(s, i, 16);
            lemma_read_u32(s, i + 1, id);
            lemma_read_bytes(s, i + 5, bytes);
            lemma_read_bool(s, i + 9 + bytes.len(), last);
        }
        _ => {},
    }
}

#[verifier::rlimit(60)]
proof fn lemma_read_request_16(s: Seq<u8>, i: int, m: RequestModel)
    requires
        at(s, i, enc_request(m)),
        wf_request(m),
        s.len() <= usize::MAX,
        m is UploadFailed || m is Saving,
    ensures
        p_request_at(s, i) == Ok::<(RequestModel, int), WireError>((m, i + enc_request(m).len())),
{
    match m {
        RequestModel::UploadFailed(v, t) | RequestModel::Saving { token: v, name: t } => {
            let tag: u8 = if m is UploadFailed {
                17
            } else {
                18
            };
            lemma_at_split(s, i, enc_u8(tag) + enc_u32(v), enc_str(t));
            lemma_at_split(s, i, enc_u8(tag), enc_u32(v));
            lemma_read_u8(s, i, tag);
            lemma_read_u32(s, i + 1, v);
            lemma_read_str(s, i + 5, t);
        }
        _ => {},
    }
}

proof fn lemma_read_request_at(s: Seq<u8>, i: int, m: RequestModel)
    requires
        at(s, i, enc_request(m)),
        wf_request(m),
        s.len() <= usize::MAX,
    ensures
        p_request_at(s, i) == Ok::<(RequestModel, int), WireError>((m, i + enc_request(m).len())),
{
    if m is Config {
        lemma_read_request_0(s, i, m);
    }
    if m is Grant || m is Dismissed {
        lemma_read_request_1(s, i, m);
    }
    if m is Hello {
        lemma_read_request_2(s, i, m);
    }
    if m is Frame {
        lemma_read_request_3(s, i, m);
    }
    if m is Input {
        lemma_read_request_4(s, i, m);
    }
    if m is AssetReady {
        lemma_read_request_5(s, i, m);
    }
    if m is AssetFailed {
        lemma_read_request_6(s, i, m);
    }
    if m is PendingAssets {
        lemma_read_request_7(s, i, m);
    }
    if m is Paint {
        lemma_read_request_8(s, i, m);
    }
    if m is Tick {
        lemma_read_request_9(s, i, m);
    }
    if m is AccessTree {
        lemma_read_request_10(s, i, m);
    }
    if m is AccessAction {
        lemma_read_request_11(s, i, m);
    }
    if m is DesktopTheme {
        lemma_read_request_12(s, i, m);
    }
    if m is Audio {
        lemma_read_request_13(s, i, m);
    }
    if m is Picked {
        lemma_read_request_14(s, i, m);
    }
    if m is UploadChunk {
        lemma_read_request_15(s, i, m);
    }
    if m is UploadFailed || m is Saving {
        lemma_read_request_16(s, i, m);
    }
}

/// **A request read back is the request that was written.** Whatever a
/// well-formed request is, the bytes [`Request::encode`] makes of it parse
/// as that request and nothing else.
pub proof fn lemma_request_round_trip(m: RequestModel)
    requires
        wf_request(m),
        enc_request(m).len() <= usize::MAX,
    ensures
        p_request(enc_request(m)) == Ok::<RequestModel, WireError>(m),
{
    let s = enc_request(m);
    reveal(at);
    assert(s.subrange(0, s.len() as int) =~= s);
    lemma_read_request_at(s, 0, m);
}

} // verus!

verus! {

/// The count a list is written with.
fn put_colors(w: &mut W, colors: &Vec<(u16, u32)>)
    ensures
        final(w).buf@ == old(w).buf@ + enc_u32(wire_len(colors@.len())) + enc_list(
            colors@,
            enc_color_fn(),
        ),
{
    w.u32(wire_count(colors.len()));
    let ghost start = w.buf@;
    let mut k: usize = 0;
    while k < colors.len()
        invariant
            0 <= k <= colors@.len(),
            w.buf@ == start + enc_list(colors@.take(k as int), enc_color_fn()),
        decreases colors@.len() - k,
    {
        let (role, rgba) = colors[k];
        w.u32(role as u32);
        w.u32(rgba);
        proof {
            lemma_enc_list_push(colors@, k as int, enc_color_fn());
        }
        k = k + 1;
        assert(w.buf@ =~= start + enc_list(colors@.take(k as int), enc_color_fn()));
    }
    assert(colors@.take(colors@.len() as int) =~= colors@);
}

fn put_picked(w: &mut W, files: &Vec<(String, u64)>)
    ensures
        final(w).buf@ == old(w).buf@ + enc_u32(wire_len(files@.len())) + enc_list(
            files_model(files@),
            enc_picked_fn(),
        ),
{
    w.u32(wire_count(files.len()));
    let ghost start = w.buf@;
    let ghost fm = files_model(files@);
    let mut k: usize = 0;
    while k < files.len()
        invariant
            0 <= k <= files@.len(),
            fm == files_model(files@),
            w.buf@ == start + enc_list(fm.take(k as int), enc_picked_fn()),
        decreases files@.len() - k,
    {
        w.str(files[k].0.as_str());
        w.u64(files[k].1);
        proof {
            lemma_enc_list_push(fm, k as int, enc_picked_fn());
        }
        k = k + 1;
        assert(w.buf@ =~= start + enc_list(fm.take(k as int), enc_picked_fn()));
    }
    assert(fm.take(files@.len() as int) =~= fm);
}

#[verifier::loop_isolation(false)]
fn get_theme(r: &mut R) -> (res: Result<Request, WireError>)
    requires
        old(r).ok(),
    ensures
        final(r).ok(),
        final(r).b == old(r).b,
        match p_theme(old(r).s(), old(r).i as int) {
            Ok((m, j)) => res matches Ok(x) && x@ == m && final(r).i == j,
            Err(e) => res matches Err(x) && x == e,
        },
{
    let ghost s = r.s();
    let ghost b0 = r.b;
    let b = r.u8()?;
    let mode = if b == 255 {
        None
    } else {
        match ThemeMode::from_u8(b) {
            Some(m) => Some(m),
            None => return Err(WireError::BadValue),
        }
    };
    let n = r.u32()?;
    let ghost j0 = r.i as int;
    let mut colors: Vec<(u16, u32)> = Vec::new();
    let mut k: u32 = 0;
    while k < n
        invariant
            r.ok(),
            r.s() == s,
            r.b == b0,
            k <= n,
            p_list(s, j0, n as nat, p_color_fn()) == p_list_from(
                colors@,
                s,
                r.i as int,
                (n - k) as nat,
                p_color_fn(),
            ),
        decreases n - k,
    {
        let role = r.u32()?;
        if role > 65535 {
            return Err(WireError::BadValue);
        }
        let rgba = r.u32()?;
        let ghost before = colors@;
        colors.push((role as u16, rgba));
        assert(colors@ =~= before + seq![(role as u16, rgba)]);
        assert(before + (seq![(role as u16, rgba)] + Seq::<(u16, u32)>::empty()) =~= colors@);
        k = k + 1;
        proof {
            let rest = p_list(s, r.i as int, (n - k) as nat, p_color_fn());
            if rest is Ok {
                let (xs, e) = rest->Ok_0;
                assert(before + (seq![(role as u16, rgba)] + xs) =~= colors@ + xs);
            }
        }
    }
    assert(colors@ + Seq::<(u16, u32)>::empty() =~= colors@);
    Ok(Request::DesktopTheme(mode, colors))
}

#[verifier::loop_isolation(false)]
fn get_picked(r: &mut R) -> (res: Result<Request, WireError>)
    requires
        old(r).ok(),
    ensures
        final(r).ok(),
        final(r).b == old(r).b,
        match p_u32x2(old(r).s(), old(r).i as int) {
            Ok((token, n, j)) => match p_list(old(r).s(), j, n as nat, p_picked_fn()) {
                Ok((files, k)) => res matches Ok(x) && x@ == (RequestModel::Picked { token, files })
                    && final(r).i == k,
                Err(e) => res matches Err(x) && x == e,
            },
            Err(e) => res matches Err(x) && x == e,
        },
{
    let ghost s = r.s();
    let ghost b0 = r.b;
    let token = r.u32()?;
    let n = r.u32()?;
    let ghost j0 = r.i as int;
    let mut files: Vec<(String, u64)> = Vec::new();
    let mut k: u32 = 0;
    while k < n
        invariant
            r.ok(),
            r.s() == s,
            r.b == b0,
            k <= n,
            p_list(s, j0, n as nat, p_picked_fn()) == p_list_from(
                files_model(files@),
                s,
                r.i as int,
                (n - k) as nat,
                p_picked_fn(),
            ),
        decreases n - k,
    {
        let name = r.str()?;
        let size = r.u64()?;
        let ghost before = files_model(files@);
        let ghost item = (name@, size);
        files.push((name, size));
        assert(files_model(files@) =~= before + seq![item]);
        k = k + 1;
        proof {
            let rest = p_list(s, r.i as int, (n - k) as nat, p_picked_fn());
            if rest is Ok {
                let (xs, e) = rest->Ok_0;
                assert(before + (seq![item] + xs) =~= files_model(files@) + xs);
            }
        }
    }
    assert(files_model(files@) + Seq::<(Seq<char>, u64)>::empty() =~= files_model(files@));
    Ok(Request::Picked { token, files })
}

#[verifier::rlimit(100)]
fn get_request(r: &mut R) -> (res: Result<Request, WireError>)
    requires
        old(r).ok(),
    ensures
        final(r).ok(),
        final(r).b == old(r).b,
        match p_request_at(old(r).s(), old(r).i as int) {
            Ok((m, j)) => res matches Ok(x) && x@ == m && final(r).i == j,
            Err(e) => res matches Err(x) && x == e,
        },
{
    let tag = r.u8()?;
    if tag == 0 {
        let w = r.u32()?;
        let h = r.u32()?;
        let scale = r.u32()?;
        let granted = r.u32()?;
        Ok(Request::Config { w, h, scale, granted })
    } else if tag == 1 || tag == 15 {
        let v = r.u32()?;
        Ok(
            if tag == 1 {
                Request::Grant(v)
            } else {
                Request::Dismissed(v)
            },
        )
    } else if tag == 2 {
        Ok(Request::Hello)
    } else if tag == 3 {
        let b = r.bytes()?;
        Ok(Request::Frame(b))
    } else if tag == 4 {
        let i = get_input(r)?;
        Ok(Request::Input(i))
    } else if tag == 5 {
        let h = r.hash()?;
        let b = r.bytes()?;
        Ok(Request::AssetReady(h, b))
    } else if tag == 6 {
        let h = r.hash()?;
        let why = r.str()?;
        Ok(Request::AssetFailed(h, why))
    } else if tag == 7 {
        Ok(Request::PendingAssets)
    } else if tag == 8 {
        let w = r.u32()?;
        let h = r.u32()?;
        Ok(Request::Paint(w, h))
    } else if tag == 9 {
        Ok(Request::Tick)
    } else if tag == 10 {
        Ok(Request::AccessTree)
    } else if tag == 11 {
        let id = r.u64()?;
        let click = r.bool()?;
        Ok(Request::AccessAction(id, click))
    } else if tag == 12 {
        get_theme(r)
    } else if tag == 13 {
        let frames = r.u32()?;
        let channels = r.u8()?;
        let rate = r.u32()?;
        Ok(Request::Audio { frames, channels, rate })
    } else if tag == 14 {
        get_picked(r)
    } else if tag == 16 {
        let id = r.u32()?;
        let bytes = r.bytes()?;
        let last = r.bool()?;
        Ok(Request::UploadChunk { id, bytes, last })
    } else if tag == 17 || tag == 18 {
        let v = r.u32()?;
        let t = r.str()?;
        Ok(
            if tag == 17 {
                Request::UploadFailed(v, t)
            } else {
                Request::Saving { token: v, name: t }
            },
        )
    } else {
        Err(WireError::UnknownTag)
    }
}

impl Request {
    /// The request as bytes for the pipe.
    pub fn encode(&self) -> (out: Vec<u8>)
        ensures
            out@ == enc_request(self@),
    {
        let mut w = W::new();
        match self {
            Request::Config { w: width, h, scale, granted } => {
                w.u8(0);
                w.u32(*width);
                w.u32(*h);
                w.u32(*scale);
                w.u32(*granted);
            },
            Request::Grant(g) => {
                w.u8(1);
                w.u32(*g);
            },
            Request::Hello => w.u8(2),
            Request::Frame(b) => {
                w.u8(3);
                w.bytes(b.as_slice());
            },
            Request::Input(i) => {
                w.u8(4);
                put_input(&mut w, i);
            },
            Request::AssetReady(h, b) => {
                w.u8(5);
                w.hash(h);
                w.bytes(b.as_slice());
            },
            Request::AssetFailed(h, why) => {
                w.u8(6);
                w.hash(h);
                w.str(why.as_str());
            },
            Request::PendingAssets => w.u8(7),
            Request::Paint(pw, ph) => {
                w.u8(8);
                w.u32(*pw);
                w.u32(*ph);
            },
            Request::Tick => w.u8(9),
            Request::AccessTree => w.u8(10),
            Request::AccessAction(id, click) => {
                w.u8(11);
                w.u64(*id);
                w.bool(*click);
            },
            Request::Audio { frames, channels, rate } => {
                w.u8(13);
                w.u32(*frames);
                w.u8(*channels);
                w.u32(*rate);
            },
            Request::Picked { token, files } => {
                w.u8(14);
                w.u32(*token);
                put_picked(&mut w, files);
            },
            Request::Dismissed(token) => {
                w.u8(15);
                w.u32(*token);
            },
            Request::UploadChunk { id, bytes, last } => {
                w.u8(16);
                w.u32(*id);
                w.bytes(bytes.as_slice());
                w.bool(*last);
            },
            Request::UploadFailed(id, why) => {
                w.u8(17);
                w.u32(*id);
                w.str(why.as_str());
            },
            Request::Saving { token, name } => {
                w.u8(18);
                w.u32(*token);
                w.str(name.as_str());
            },
            Request::DesktopTheme(mode, colors) => {
                w.u8(12);
                w.u8(
                    match mode {
                        Some(m) => m.to_u8(),
                        None => 255,
                    },
                );
                put_colors(&mut w, colors);
            },
        }
        assert(w.buf@ =~= enc_request(self@));
        w.buf
    }

    /// The request these bytes hold, or why they hold none.
    pub fn decode(b: &[u8]) -> (res: Result<Request, WireError>)
        ensures
            match p_request(b@) {
                Ok(m) => res matches Ok(x) && x@ == m,
                Err(e) => res matches Err(x) && x == e,
            },
    {
        let mut r = R { b, i: 0 };
        let out = get_request(&mut r)?;
        r.done()?;
        Ok(out)
    }
}

/// The most samples one audio request is answered with.
pub const MAX_PCM: usize = 1048576;

/// What an audio request asks the worker to fill: the channels, held to
/// one or two, and the samples for `frames` frames of them, no more than
/// [`MAX_PCM`].
pub fn pcm_len(frames: u32, channels: u8) -> (r: (u16, usize))
    ensures
        r.0 == (if channels < 1 {
            1
        } else if channels > 2 {
            2
        } else {
            channels as u16
        }),
        r.1 == (if frames * r.0 < MAX_PCM {
            frames * r.0
        } else {
            MAX_PCM as int
        }),
{
    let c: u16 = if channels < 1 {
        1
    } else if channels > 2 {
        2
    } else {
        channels as u16
    };
    let f = frames as u64;
    let w = c as u64;
    assert(f * w <= 0xffff_ffff * 2) by (nonlinear_arith)
        requires
            f <= 0xffff_ffff,
            w <= 2,
    ;
    let n = f * w;
    if n < MAX_PCM as u64 {
        (c, n as usize)
    } else {
        (c, MAX_PCM)
    }
}

} // verus!
