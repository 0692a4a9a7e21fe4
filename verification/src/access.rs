//! The tree an assistive technology sees, as the worker sends it: each
//! node's role, bounds, label, value, actions, children and declared
//! state. The booleans and the two tri-states of a state pack into one
//! word; each number follows behind its own presence bit, because `0` is a
//! value a slider may really sit at.

use vstd::prelude::*;

use crate::wire::{
    at, enc_counted, enc_f4, enc_str, enc_u32, enc_u64, enc_u8, lemma_at_split,
    lemma_read_counted, lemma_read_f4, lemma_read_str, lemma_read_u32, lemma_read_u64,
    lemma_read_u8, p_counted, p_f4, p_list, p_list_from, p_str, p_u32, p_u64, p_u8, str_fits,
    wire_count, enc_list, lemma_enc_list_push, WireError, R, W,
};

verus! {

/// A check box's state.
#[derive(Debug, Clone, Copy, PartialEq, Eq, Structural)]
pub enum Checked {
    No,
    Yes,
    Mixed,
}

/// What a node declares about itself beyond its role. A number is the
/// bits of the `f32` the wire carries.
#[derive(Debug, PartialEq, Eq)]
pub struct AccessState {
    pub description: String,
    pub checked: Option<Checked>,
    pub expanded: Option<bool>,
    pub selected: Option<bool>,
    pub disabled: bool,
    pub read_only: bool,
    pub required: bool,
    pub invalid: bool,
    pub busy: bool,
    pub modal: bool,
    pub value_now: Option<u32>,
    pub value_min: Option<u32>,
    pub value_max: Option<u32>,
    pub pos_in_set: u32,
    pub set_size: u32,
    pub level: u32,
    pub orientation: u8,
    pub live: u8,
}

pub struct AccessStateModel {
    pub description: Seq<char>,
    pub checked: Option<Checked>,
    pub expanded: Option<bool>,
    pub selected: Option<bool>,
    pub disabled: bool,
    pub read_only: bool,
    pub required: bool,
    pub invalid: bool,
    pub busy: bool,
    pub modal: bool,
    pub value_now: Option<u32>,
    pub value_min: Option<u32>,
    pub value_max: Option<u32>,
    pub pos_in_set: u32,
    pub set_size: u32,
    pub level: u32,
    pub orientation: u8,
    pub live: u8,
}

impl View for AccessState {
    type V = AccessStateModel;

    open spec fn view(&self) -> AccessStateModel {
        AccessStateModel {
            description: self.description@,
            checked: self.checked,
            expanded: self.expanded,
            selected: self.selected,
            disabled: self.disabled,
            read_only: self.read_only,
            required: self.required,
            invalid: self.invalid,
            busy: self.busy,
            modal: self.modal,
            value_now: self.value_now,
            value_min: self.value_min,
            value_max: self.value_max,
            pos_in_set: self.pos_in_set,
            set_size: self.set_size,
            level: self.level,
            orientation: self.orientation,
            live: self.live,
        }
    }
}

/// One node: `role` is the role's wire byte, `bounds` four `f32` bits.
#[derive(Debug, PartialEq, Eq)]
pub struct AccessNode {
    pub id: u64,
    pub role: u8,
    pub bounds: [u32; 4],
    pub label: String,
    pub value: String,
    pub click: bool,
    pub focus: bool,
    pub children: Vec<u64>,
    pub state: AccessState,
}

pub struct AccessNodeModel {
    pub id: u64,
    pub role: u8,
    pub bounds: Seq<u32>,
    pub label: Seq<char>,
    pub value: Seq<char>,
    pub click: bool,
    pub focus: bool,
    pub children: Seq<u64>,
    pub state: AccessStateModel,
}

impl View for AccessNode {
    type V = AccessNodeModel;

    open spec fn view(&self) -> AccessNodeModel {
        AccessNodeModel {
            id: self.id,
            role: self.role,
            bounds: self.bounds@,
            label: self.label@,
            value: self.value@,
            click: self.click,
            focus: self.focus,
            children: self.children@,
            state: self.state@,
        }
    }
}

/// The tree as painted: its nodes, the one with focus, and the scale
/// (`f32` bits).
#[derive(Debug, PartialEq, Eq)]
pub struct AccessSnapshot {
    pub nodes: Vec<AccessNode>,
    pub focus: u64,
    pub scale: u32,
}

pub struct AccessSnapshotModel {
    pub nodes: Seq<AccessNodeModel>,
    pub focus: u64,
    pub scale: u32,
}

pub open spec fn node_views(v: Seq<AccessNode>) -> Seq<AccessNodeModel> {
    v.map_values(|n: AccessNode| n@)
}

impl View for AccessSnapshot {
    type V = AccessSnapshotModel;

    open spec fn view(&self) -> AccessSnapshotModel {
        AccessSnapshotModel { nodes: node_views(self.nodes@), focus: self.focus, scale: self.scale }
    }
}

// ------------------------------------------------------------------ state

pub open spec fn bit(on: bool, v: u32) -> u32 {
    if on {
        v
    } else {
        0u32
    }
}

/// The word the booleans, the tri-states and the presence of each number
/// pack into.
#[verifier::opaque]
pub open spec fn state_flags(st: AccessStateModel) -> u32 {
    bit(st.disabled, 1) | bit(st.read_only, 2) | bit(st.required, 4) | bit(st.invalid, 8) | bit(
        st.busy,
        16,
    ) | bit(st.modal, 32) | bit(st.checked is Some, 64) | bit(st.checked == Some(Checked::Yes), 128)
        | bit(st.checked == Some(Checked::Mixed), 256) | bit(st.expanded is Some, 512) | bit(
        st.expanded == Some(true),
        1024,
    ) | bit(st.selected is Some, 2048) | bit(st.selected == Some(true), 4096) | bit(
        st.value_now is Some,
        8192,
    ) | bit(st.value_min is Some, 16384) | bit(st.value_max is Some, 32768)
}

pub open spec fn on(flags: u32, v: u32) -> bool {
    flags & v != 0
}

pub open spec fn or_zero(v: Option<u32>) -> u32 {
    match v {
        Some(x) => x,
        None => 0,
    }
}

pub open spec fn enc_state(st: AccessStateModel) -> Seq<u8> {
    enc_u32(state_flags(st)) + enc_str(st.description) + enc_u32(or_zero(st.value_now)) + enc_u32(
        or_zero(st.value_min),
    ) + enc_u32(or_zero(st.value_max)) + enc_u32(st.pos_in_set) + enc_u32(st.set_size) + enc_u32(
        st.level,
    ) + enc_u8(st.orientation) + enc_u8(st.live)
}

pub open spec fn state_of(
    flags: u32,
    description: Seq<char>,
    nums: Seq<u32>,
    pos_in_set: u32,
    set_size: u32,
    level: u32,
    orientation: u8,
    live: u8,
) -> AccessStateModel {
    AccessStateModel {
        description,
        checked: if on(flags, 64) {
            if on(flags, 256) {
                Some(Checked::Mixed)
            } else if on(flags, 128) {
                Some(Checked::Yes)
            } else {
                Some(Checked::No)
            }
        } else {
            None
        },
        expanded: if on(flags, 512) {
            Some(on(flags, 1024))
        } else {
            None
        },
        selected: if on(flags, 2048) {
            Some(on(flags, 4096))
        } else {
            None
        },
        disabled: on(flags, 1),
        read_only: on(flags, 2),
        required: on(flags, 4),
        invalid: on(flags, 8),
        busy: on(flags, 16),
        modal: on(flags, 32),
        value_now: if on(flags, 8192) {
            Some(nums[0])
        } else {
            None
        },
        value_min: if on(flags, 16384) {
            Some(nums[1])
        } else {
            None
        },
        value_max: if on(flags, 32768) {
            Some(nums[2])
        } else {
            None
        },
        pos_in_set,
        set_size,
        level,
        orientation,
        live,
    }
}

pub open spec fn p_state_nums(s: Seq<u8>, i: int) -> Result<((u32, u32, u32, u32, u32, u32), int), WireError> {
    match p_u32(s, i) {
        Ok((a, i1)) => match p_u32(s, i1) {
            Ok((b, i2)) => match p_u32(s, i2) {
                Ok((c, i3)) => match p_u32(s, i3) {
                    Ok((d, i4)) => match p_u32(s, i4) {
                        Ok((e, i5)) => match p_u32(s, i5) {
                            Ok((f, i6)) => Ok(((a, b, c, d, e, f), i6)),
                            Err(x) => Err(x),
                        },
                        Err(x) => Err(x),
                    },
                    Err(x) => Err(x),
                },
                Err(x) => Err(x),
            },
            Err(x) => Err(x),
        },
        Err(x) => Err(x),
    }
}

pub open spec fn p_state(s: Seq<u8>, i: int) -> Result<(AccessStateModel, int), WireError> {
    match p_u32(s, i) {
        Ok((flags, i1)) => match p_str(s, i1) {
            Ok((desc, i2)) => match p_state_nums(s, i2) {
                Ok(((a, b, c, d, e, f), i3)) => match p_u8(s, i3) {
                    Ok((o, i4)) => match p_u8(s, i4) {
                        Ok((l, i5)) => Ok((state_of(flags, desc, seq![a, b, c], d, e, f, o, l), i5)),
                        Err(x) => Err(x),
                    },
                    Err(x) => Err(x),
                },
                Err(x) => Err(x),
            },
            Err(x) => Err(x),
        },
        Err(x) => Err(x),
    }
}

proof fn lemma_flag_bits(bs: Seq<bool>)
    requires
        bs.len() == 16,
    ensures
        ({
            let m = bit(bs[0], 1) | bit(bs[1], 2) | bit(bs[2], 4) | bit(bs[3], 8) | bit(bs[4], 16)
                | bit(bs[5], 32) | bit(bs[6], 64) | bit(bs[7], 128) | bit(bs[8], 256) | bit(
                bs[9],
                512,
            ) | bit(bs[10], 1024) | bit(bs[11], 2048) | bit(bs[12], 4096) | bit(bs[13], 8192)
                | bit(bs[14], 16384) | bit(bs[15], 32768);
            &&& on(m, 1) == bs[0]
            &&& on(m, 2) == bs[1]
            &&& on(m, 4) == bs[2]
            &&& on(m, 8) == bs[3]
            &&& on(m, 16) == bs[4]
            &&& on(m, 32) == bs[5]
            &&& on(m, 64) == bs[6]
            &&& on(m, 128) == bs[7]
            &&& on(m, 256) == bs[8]
            &&& on(m, 512) == bs[9]
            &&& on(m, 1024) == bs[10]
            &&& on(m, 2048) == bs[11]
            &&& on(m, 4096) == bs[12]
            &&& on(m, 8192) == bs[13]
            &&& on(m, 16384) == bs[14]
            &&& on(m, 32768) == bs[15]
        }),
{
    let c0 = bit(bs[0], 1);
    let c1 = bit(bs[1], 2);
    let c2 = bit(bs[2], 4);
    let c3 = bit(bs[3], 8);
    let c4 = bit(bs[4], 16);
    let c5 = bit(bs[5], 32);
    let c6 = bit(bs[6], 64);
    let c7 = bit(bs[7], 128);
    let c8 = bit(bs[8], 256);
    let c9 = bit(bs[9], 512);
    let c10 = bit(bs[10], 1024);
    let c11 = bit(bs[11], 2048);
    let c12 = bit(bs[12], 4096);
    let c13 = bit(bs[13], 8192);
    let c14 = bit(bs[14], 16384);
    let c15 = bit(bs[15], 32768);
    assert({
        let m = c0 | c1 | c2 | c3 | c4 | c5 | c6 | c7 | c8 | c9 | c10 | c11 | c12 | c13 | c14 | c15;
        &&& (m & 1 != 0) == (c0 != 0)
        &&& (m & 2 != 0) == (c1 != 0)
        &&& (m & 4 != 0) == (c2 != 0)
        &&& (m & 8 != 0) == (c3 != 0)
        &&& (m & 16 != 0) == (c4 != 0)
        &&& (m & 32 != 0) == (c5 != 0)
        &&& (m & 64 != 0) == (c6 != 0)
        &&& (m & 128 != 0) == (c7 != 0)
        &&& (m & 256 != 0) == (c8 != 0)
        &&& (m & 512 != 0) == (c9 != 0)
        &&& (m & 1024 != 0) == (c10 != 0)
        &&& (m & 2048 != 0) == (c11 != 0)
        &&& (m & 4096 != 0) == (c12 != 0)
        &&& (m & 8192 != 0) == (c13 != 0)
        &&& (m & 16384 != 0) == (c14 != 0)
        &&& (m & 32768 != 0) == (c15 != 0)
    }) by (bit_vector)
        requires
            c0 == 0 || c0 == 1,
            c1 == 0 || c1 == 2,
            c2 == 0 || c2 == 4,
            c3 == 0 || c3 == 8,
            c4 == 0 || c4 == 16,
            c5 == 0 || c5 == 32,
            c6 == 0 || c6 == 64,
            c7 == 0 || c7 == 128,
            c8 == 0 || c8 == 256,
            c9 == 0 || c9 == 512,
            c10 == 0 || c10 == 1024,
            c11 == 0 || c11 == 2048,
            c12 == 0 || c12 == 4096,
            c13 == 0 || c13 == 8192,
            c14 == 0 || c14 == 16384,
            c15 == 0 || c15 == 32768,
    ;
}

/// Reading back the word a state packed into gives the state's booleans,
/// tri-states and presences.
proof fn lemma_state_flags(st: AccessStateModel)
    ensures
        ({
            let m = state_flags(st);
            &&& on(m, 1) == st.disabled
            &&& on(m, 2) == st.read_only
            &&& on(m, 4) == st.required
            &&& on(m, 8) == st.invalid
            &&& on(m, 16) == st.busy
            &&& on(m, 32) == st.modal
            &&& on(m, 64) == st.checked is Some
            &&& on(m, 128) == (st.checked == Some(Checked::Yes))
            &&& on(m, 256) == (st.checked == Some(Checked::Mixed))
            &&& on(m, 512) == st.expanded is Some
            &&& on(m, 1024) == (st.expanded == Some(true))
            &&& on(m, 2048) == st.selected is Some
            &&& on(m, 4096) == (st.selected == Some(true))
            &&& on(m, 8192) == st.value_now is Some
            &&& on(m, 16384) == st.value_min is Some
            &&& on(m, 32768) == st.value_max is Some
        }),
{
    reveal(state_flags);
    let bs = seq![
        st.disabled,
        st.read_only,
        st.required,
        st.invalid,
        st.busy,
        st.modal,
        st.checked is Some,
        st.checked == Some(Checked::Yes),
        st.checked == Some(Checked::Mixed),
        st.expanded is Some,
        st.expanded == Some(true),
        st.selected is Some,
        st.selected == Some(true),
        st.value_now is Some,
        st.value_min is Some,
        st.value_max is Some,
    ];
    lemma_flag_bits(bs);
}

pub open spec fn state_fits(st: AccessStateModel) -> bool {
    str_fits(st.description)
}

proof fn lemma_read_state(s: Seq<u8>, i: int, st: AccessStateModel)
    requires
        at(s, i, enc_state(st)),
        state_fits(st),
        s.len() <= usize::MAX,
    ensures
        p_state(s, i) == Ok::<(AccessStateModel, int), WireError>((st, i + enc_state(st).len())),
{
    let f = enc_u32(state_flags(st));
    let d = enc_str(st.description);
    let n0 = enc_u32(or_zero(st.value_now));
    let n1 = enc_u32(or_zero(st.value_min));
    let n2 = enc_u32(or_zero(st.value_max));
    let n3 = enc_u32(st.pos_in_set);
    let n4 = enc_u32(st.set_size);
    let n5 = enc_u32(st.level);
    let o = enc_u8(st.orientation);
    let l = enc_u8(st.live);
    lemma_at_split(s, i, f + d + n0 + n1 + n2 + n3 + n4 + n5 + o, l);
    lemma_at_split(s, i, f + d + n0 + n1 + n2 + n3 + n4 + n5, o);
    lemma_at_split(s, i, f + d + n0 + n1 + n2 + n3 + n4, n5);
    lemma_at_split(s, i, f + d + n0 + n1 + n2 + n3, n4);
    lemma_at_split(s, i, f + d + n0 + n1 + n2, n3);
    lemma_at_split(s, i, f + d + n0 + n1, n2);
    lemma_at_split(s, i, f + d + n0, n1);
    lemma_at_split(s, i, f + d, n0);
    lemma_at_split(s, i, f, d);
    lemma_read_u32(s, i, state_flags(st));
    lemma_read_str(s, i + 4, st.description);
    let j = i + 4 + d.len();
    lemma_read_u32(s, j, or_zero(st.value_now));
    lemma_read_u32(s, j + 4, or_zero(st.value_min));
    lemma_read_u32(s, j + 8, or_zero(st.value_max));
    lemma_read_u32(s, j + 12, st.pos_in_set);
    lemma_read_u32(s, j + 16, st.set_size);
    lemma_read_u32(s, j + 20, st.level);
    lemma_read_u8(s, j + 24, st.orientation);
    lemma_read_u8(s, j + 25, st.live);
    lemma_state_flags(st);
    let back = state_of(
        state_flags(st),
        st.description,
        seq![or_zero(st.value_now), or_zero(st.value_min), or_zero(st.value_max)],
        st.pos_in_set,
        st.set_size,
        st.level,
        st.orientation,
        st.live,
    );
    assert(back.checked == st.checked);
    assert(back.expanded == st.expanded);
    assert(back.selected == st.selected);
    assert(back == st);
}

fn bitx(on: bool, v: u32) -> (r: u32)
    ensures
        r == bit(on, v),
{
    if on {
        v
    } else {
        0
    }
}

fn state_flags_of(st: &AccessState) -> (f: u32)
    ensures
        f == state_flags(st@),
{
    proof {
        reveal(state_flags);
    }
    let c = st.checked;
    let yes = match c {
        Some(Checked::Yes) => true,
        _ => false,
    };
    let mixed = match c {
        Some(Checked::Mixed) => true,
        _ => false,
    };
    let ex = match st.expanded {
        Some(true) => true,
        _ => false,
    };
    let se = match st.selected {
        Some(true) => true,
        _ => false,
    };
    bitx(st.disabled, 1) | bitx(st.read_only, 2) | bitx(st.required, 4) | bitx(st.invalid, 8)
        | bitx(st.busy, 16) | bitx(st.modal, 32) | bitx(c.is_some(), 64) | bitx(yes, 128) | bitx(
        mixed,
        256,
    ) | bitx(st.expanded.is_some(), 512) | bitx(ex, 1024) | bitx(st.selected.is_some(), 2048)
        | bitx(se, 4096) | bitx(st.value_now.is_some(), 8192) | bitx(st.value_min.is_some(), 16384)
        | bitx(st.value_max.is_some(), 32768)
}

fn zero_or(v: Option<u32>) -> (r: u32)
    ensures
        r == or_zero(v),
{
    match v {
        Some(x) => x,
        None => 0,
    }
}

/// Write a node's declared state.
pub fn put_state(w: &mut W, st: &AccessState)
    ensures
        final(w).buf@ == old(w).buf@ + enc_state(st@),
{
    w.u32(state_flags_of(st));
    w.str(st.description.as_str());
    w.u32(zero_or(st.value_now));
    w.u32(zero_or(st.value_min));
    w.u32(zero_or(st.value_max));
    w.u32(st.pos_in_set);
    w.u32(st.set_size);
    w.u32(st.level);
    w.u8(st.orientation);
    w.u8(st.live);
    assert(w.buf@ =~= old(w).buf@ + enc_state(st@));
}

fn flag(flags: u32, v: u32) -> (r: bool)
    ensures
        r == on(flags, v),
{
    flags & v != 0
}

/// Read a node's declared state.
pub fn get_state(r: &mut R) -> (res: Result<AccessState, WireError>)
    requires
        old(r).ok(),
    ensures
        final(r).ok(),
        final(r).b == old(r).b,
        match p_state(old(r).s(), old(r).i as int) {
            Ok((v, j)) => res matches Ok(x) && x@ == v && final(r).i == j,
            Err(e) => res matches Err(x) && x == e,
        },
{
    let flags = r.u32()?;
    let description = r.str()?;
    let a = r.u32()?;
    let b = r.u32()?;
    let c = r.u32()?;
    let d = r.u32()?;
    let e = r.u32()?;
    let f = r.u32()?;
    let o = r.u8()?;
    let l = r.u8()?;
    let checked = if flag(flags, 64) {
        if flag(flags, 256) {
            Some(Checked::Mixed)
        } else if flag(flags, 128) {
            Some(Checked::Yes)
        } else {
            Some(Checked::No)
        }
    } else {
        None
    };
    let st = AccessState {
        description,
        checked,
        expanded: if flag(flags, 512) {
            Some(flag(flags, 1024))
        } else {
            None
        },
        selected: if flag(flags, 2048) {
            Some(flag(flags, 4096))
        } else {
            None
        },
        disabled: flag(flags, 1),
        read_only: flag(flags, 2),
        required: flag(flags, 4),
        invalid: flag(flags, 8),
        busy: flag(flags, 16),
        modal: flag(flags, 32),
        value_now: if flag(flags, 8192) {
            Some(a)
        } else {
            None
        },
        value_min: if flag(flags, 16384) {
            Some(b)
        } else {
            None
        },
        value_max: if flag(flags, 32768) {
            Some(c)
        } else {
            None
        },
        pos_in_set: d,
        set_size: e,
        level: f,
        orientation: o,
        live: l,
    };
    Ok(st)
}

// ------------------------------------------------------------------ nodes

pub open spec fn actions_byte(click: bool, focus: bool) -> u8 {
    (if click {
        1u8
    } else {
        0u8
    }) | (if focus {
        2u8
    } else {
        0u8
    })
}

pub open spec fn enc_u64_fn() -> spec_fn(u64) -> Seq<u8> {
    |v: u64| enc_u64(v)
}

pub open spec fn p_u64_fn() -> spec_fn(Seq<u8>, int) -> Result<(u64, int), WireError> {
    |s: Seq<u8>, i: int| p_u64(s, i)
}

pub open spec fn enc_node(n: AccessNodeModel) -> Seq<u8> {
    enc_u64(n.id) + enc_u8(n.role) + enc_f4(n.bounds) + enc_str(n.label) + enc_str(n.value) + enc_u8(
        actions_byte(n.click, n.focus),
    ) + enc_counted(n.children, enc_u64_fn()) + enc_state(n.state)
}

pub open spec fn enc_node_fn() -> spec_fn(AccessNodeModel) -> Seq<u8> {
    |n: AccessNodeModel| enc_node(n)
}

pub open spec fn p_node_head(s: Seq<u8>, i: int) -> Result<((u64, u8, Seq<u32>, Seq<char>, Seq<char>, u8), int), WireError> {
    match p_u64(s, i) {
        Ok((id, i1)) => match p_u8(s, i1) {
            Ok((role, i2)) => match p_f4(s, i2) {
                Ok((bounds, i3)) => match p_str(s, i3) {
                    Ok((label, i4)) => match p_str(s, i4) {
                        Ok((value, i5)) => match p_u8(s, i5) {
                            Ok((actions, i6)) => Ok(((id, role, bounds, label, value, actions), i6)),
                            Err(x) => Err(x),
                        },
                        Err(x) => Err(x),
                    },
                    Err(x) => Err(x),
                },
                Err(x) => Err(x),
            },
            Err(x) => Err(x),
        },
        Err(x) => Err(x),
    }
}

pub open spec fn p_node(s: Seq<u8>, i: int) -> Result<(AccessNodeModel, int), WireError> {
    match p_node_head(s, i) {
        Ok(((id, role, bounds, label, value, actions), j)) => match p_counted(s, j, p_u64_fn()) {
            Ok((children, k)) => match p_state(s, k) {
                Ok((state, l)) => Ok(
                    (
                        AccessNodeModel {
                            id,
                            role,
                            bounds,
                            label,
                            value,
                            click: actions & 1 != 0,
                            focus: actions & 2 != 0,
                            children,
                            state,
                        },
                        l,
                    ),
                ),
                Err(x) => Err(x),
            },
            Err(x) => Err(x),
        },
        Err(x) => Err(x),
    }
}

pub open spec fn p_node_fn() -> spec_fn(Seq<u8>, int) -> Result<(AccessNodeModel, int), WireError> {
    |s: Seq<u8>, i: int| p_node(s, i)
}

pub open spec fn enc_snapshot(a: AccessSnapshotModel) -> Seq<u8> {
    enc_counted(a.nodes, enc_node_fn()) + enc_u64(a.focus) + enc_u32(a.scale)
}

pub open spec fn p_snapshot(s: Seq<u8>, i: int) -> Result<(AccessSnapshotModel, int), WireError> {
    match p_counted(s, i, p_node_fn()) {
        Ok((nodes, j)) => match p_u64(s, j) {
            Ok((focus, k)) => match p_u32(s, k) {
                Ok((scale, l)) => Ok((AccessSnapshotModel { nodes, focus, scale }, l)),
                Err(x) => Err(x),
            },
            Err(x) => Err(x),
        },
        Err(x) => Err(x),
    }
}

/// A node the wire can say whole.
pub open spec fn node_fits(n: AccessNodeModel) -> bool {
    &&& n.bounds.len() == 4
    &&& str_fits(n.label)
    &&& str_fits(n.value)
    &&& n.children.len() <= u32::MAX
    &&& state_fits(n.state)
}

pub open spec fn snapshot_fits(a: AccessSnapshotModel) -> bool {
    &&& a.nodes.len() <= u32::MAX
    &&& forall|k: int| 0 <= k < a.nodes.len() ==> node_fits(#[trigger] a.nodes[k])
}

proof fn lemma_actions(click: bool, focus: bool)
    ensures
        (actions_byte(click, focus) & 1 != 0) == click,
        (actions_byte(click, focus) & 2 != 0) == focus,
{
    let a: u8 = if click {
        1u8
    } else {
        0u8
    };
    let b: u8 = if focus {
        2u8
    } else {
        0u8
    };
    assert(((a | b) & 1 != 0) == (a != 0) && ((a | b) & 2 != 0) == (b != 0)) by (bit_vector)
        requires
            a == 0 || a == 1,
            b == 0 || b == 2,
    ;
}

proof fn lemma_read_u64_list(s: Seq<u8>, i: int, xs: Seq<u64>)
    requires
        at(s, i, enc_counted(xs, enc_u64_fn())),
        xs.len() <= u32::MAX,
    ensures
        p_counted(s, i, p_u64_fn()) == Ok::<(Seq<u64>, int), WireError>(
            (xs, i + enc_counted(xs, enc_u64_fn()).len()),
        ),
{
    assert forall|k: int, j: int|
        0 <= k < xs.len() && #[trigger] at(s, j, enc_u64_fn()(xs[k])) implies p_u64_fn()(s, j)
        == Ok::<(u64, int), WireError>((xs[k], j + enc_u64_fn()(xs[k]).len())) by {
        lemma_read_u64(s, j, xs[k]);
    }
    lemma_read_counted(s, i, xs, enc_u64_fn(), p_u64_fn());
}

proof fn lemma_read_node(s: Seq<u8>, i: int, n: AccessNodeModel)
    requires
        at(s, i, enc_node(n)),
        node_fits(n),
        s.len() <= usize::MAX,
    ensures
        p_node(s, i) == Ok::<(AccessNodeModel, int), WireError>((n, i + enc_node(n).len())),
{
    let a = enc_u64(n.id);
    let b = enc_u8(n.role);
    let c = enc_f4(n.bounds);
    let d = enc_str(n.label);
    let e = enc_str(n.value);
    let f = enc_u8(actions_byte(n.click, n.focus));
    let g = enc_counted(n.children, enc_u64_fn());
    let h = enc_state(n.state);
    lemma_at_split(s, i, a + b + c + d + e + f + g, h);
    lemma_at_split(s, i, a + b + c + d + e + f, g);
    lemma_at_split(s, i, a + b + c + d + e, f);
    lemma_at_split(s, i, a + b + c + d, e);
    lemma_at_split(s, i, a + b + c, d);
    lemma_at_split(s, i, a + b, c);
    lemma_at_split(s, i, a, b);
    lemma_read_u64(s, i, n.id);
    lemma_read_u8(s, i + 8, n.role);
    lemma_read_f4(s, i + 9, n.bounds);
    lemma_read_str(s, i + 25, n.label);
    lemma_read_str(s, i + 25 + d.len(), n.value);
    let j = i + 25 + d.len() + e.len();
    lemma_read_u8(s, j, actions_byte(n.click, n.focus));
    lemma_read_u64_list(s, j + 1, n.children);
    lemma_read_state(s, j + 1 + g.len(), n.state);
    lemma_actions(n.click, n.focus);
}

/// What is written is what is read: a snapshot the wire can say comes
/// back whole from the bytes `put_access` writes for it.
pub proof fn lemma_read_snapshot(s: Seq<u8>, i: int, a: AccessSnapshotModel)
    requires
        at(s, i, enc_snapshot(a)),
        snapshot_fits(a),
        s.len() <= usize::MAX,
    ensures
        p_snapshot(s, i) == Ok::<(AccessSnapshotModel, int), WireError>(
            (a, i + enc_snapshot(a).len()),
        ),
{
    let x = enc_counted(a.nodes, enc_node_fn());
    lemma_at_split(s, i, x + enc_u64(a.focus), enc_u32(a.scale));
    lemma_at_split(s, i, x, enc_u64(a.focus));
    assert forall|k: int, j: int|
        0 <= k < a.nodes.len() && #[trigger] at(s, j, enc_node_fn()(a.nodes[k])) implies p_node_fn()(
        s,
        j,
    ) == Ok::<(AccessNodeModel, int), WireError>((a.nodes[k], j + enc_node_fn()(a.nodes[k]).len())) by {
        lemma_read_node(s, j, a.nodes[k]);
    }
    lemma_read_counted(s, i, a.nodes, enc_node_fn(), p_node_fn());
    lemma_read_u64(s, i + x.len(), a.focus);
    lemma_read_u32(s, i + x.len() + 8, a.scale);
}

fn put_node(w: &mut W, n: &AccessNode)
    ensures
        final(w).buf@ == old(w).buf@ + enc_node(n@),
{
    w.u64(n.id);
    w.u8(n.role);
    w.f4(&n.bounds);
    w.str(n.label.as_str());
    w.str(n.value.as_str());
    let act = (if n.click {
        1u8
    } else {
        0u8
    }) | (if n.focus {
        2u8
    } else {
        0u8
    });
    w.u8(act);
    w.u32(wire_count(n.children.len()));
    let ghost s0 = w.buf@;
    let mut k: usize = 0;
    while k < n.children.len()
        invariant
            k <= n.children@.len(),
            w.buf@ == s0 + enc_list(n.children@.take(k as int), enc_u64_fn()),
        decreases n.children.len() - k,
    {
        w.u64(n.children[k]);
        proof {
            lemma_enc_list_push(n.children@, k as int, enc_u64_fn());
        }
        k = k + 1;
        assert(w.buf@ =~= s0 + enc_list(n.children@.take(k as int), enc_u64_fn()));
    }
    assert(n.children@.take(k as int) =~= n.children@);
    put_state(w, &n.state);
    assert(w.buf@ =~= old(w).buf@ + enc_node(n@));
}

/// Write the tree as painted.
pub fn put_access(w: &mut W, a: &AccessSnapshot)
    ensures
        final(w).buf@ == old(w).buf@ + enc_snapshot(a@),
{
    let ghost m = a@;
    w.u32(wire_count(a.nodes.len()));
    let ghost s0 = w.buf@;
    let mut k: usize = 0;
    while k < a.nodes.len()
        invariant
            m == a@,
            k <= a.nodes@.len(),
            w.buf@ == s0 + enc_list(m.nodes.take(k as int), enc_node_fn()),
        decreases a.nodes.len() - k,
    {
        put_node(w, &a.nodes[k]);
        proof {
            lemma_enc_list_push(m.nodes, k as int, enc_node_fn());
        }
        k = k + 1;
        assert(w.buf@ =~= s0 + enc_list(m.nodes.take(k as int), enc_node_fn()));
    }
    assert(m.nodes.take(k as int) =~= m.nodes);
    w.u64(a.focus);
    w.u32(a.scale);
    assert(w.buf@ =~= old(w).buf@ + enc_snapshot(m));
}

#[verifier::loop_isolation(false)]
fn get_u64s(r: &mut R) -> (res: Result<Vec<u64>, WireError>)
    requires
        old(r).ok(),
    ensures
        final(r).ok(),
        final(r).b == old(r).b,
        match p_counted(old(r).s(), old(r).i as int, p_u64_fn()) {
            Ok((v, j)) => res matches Ok(x) && x@ == v && final(r).i == j,
            Err(e) => res matches Err(x) && x == e,
        },
{
    proof {
        reveal(p_counted);
    }
    let ghost s = r.s();
    let ghost b0 = r.b;
    let n = r.u32()?;
    let ghost j0 = r.i as int;
    let mut out: Vec<u64> = Vec::new();
    let mut k: u32 = 0;
    while k < n
        invariant
            r.ok(),
            r.s() == s,
            r.b == b0,
            k <= n,
            p_list(s, j0, n as nat, p_u64_fn()) == p_list_from(
                out@,
                s,
                r.i as int,
                (n - k) as nat,
                p_u64_fn(),
            ),
        decreases n - k,
    {
        let x = r.u64()?;
        let ghost before = out@;
        out.push(x);
        k = k + 1;
        proof {
            let rest = p_list(s, r.i as int, (n - k) as nat, p_u64_fn());
            if rest is Ok {
                let (xs, e) = rest->Ok_0;
                assert(before + (seq![x] + xs) =~= out@ + xs);
            }
        }
    }
    assert(out@ + Seq::<u64>::empty() =~= out@);
    Ok(out)
}

fn get_node(r: &mut R) -> (res: Result<AccessNode, WireError>)
    requires
        old(r).ok(),
    ensures
        final(r).ok(),
        final(r).b == old(r).b,
        match p_node(old(r).s(), old(r).i as int) {
            Ok((v, j)) => res matches Ok(x) && x@ == v && final(r).i == j,
            Err(e) => res matches Err(x) && x == e,
        },
{
    let id = r.u64()?;
    let role = r.u8()?;
    let bounds = r.f4()?;
    let label = r.str()?;
    let value = r.str()?;
    let actions = r.u8()?;
    let children = get_u64s(r)?;
    let state = get_state(r)?;
    Ok(
        AccessNode {
            id,
            role,
            bounds,
            label,
            value,
            click: actions & 1 != 0,
            focus: actions & 2 != 0,
            children,
            state,
        },
    )
}

/// Read the tree as painted.
#[verifier::loop_isolation(false)]
pub fn get_access(r: &mut R) -> (res: Result<AccessSnapshot, WireError>)
    requires
        old(r).ok(),
    ensures
        final(r).ok(),
        final(r).b == old(r).b,
        match p_snapshot(old(r).s(), old(r).i as int) {
            Ok((v, j)) => res matches Ok(x) && x@ == v && final(r).i == j,
            Err(e) => res matches Err(x) && x == e,
        },
{
    proof {
        reveal(p_counted);
    }
    let ghost s = r.s();
    let ghost b0 = r.b;
    let n = r.u32()?;
    let ghost j0 = r.i as int;
    let mut out: Vec<AccessNode> = Vec::new();
    let mut k: u32 = 0;
    while k < n
        invariant
            r.ok(),
            r.s() == s,
            r.b == b0,
            k <= n,
            p_list(s, j0, n as nat, p_node_fn()) == p_list_from(
                node_views(out@),
                s,
                r.i as int,
                (n - k) as nat,
                p_node_fn(),
            ),
        decreases n - k,
    {
        let x = get_node(r)?;
        let ghost before = node_views(out@);
        out.push(x);
        assert(node_views(out@) =~= before + seq![x@]);
        k = k + 1;
        proof {
            let rest = p_list(s, r.i as int, (n - k) as nat, p_node_fn());
            if rest is Ok {
                let (xs, e) = rest->Ok_0;
                assert(before + (seq![x@] + xs) =~= node_views(out@) + xs);
            }
        }
    }
    assert(node_views(out@) + Seq::<AccessNodeModel>::empty() =~= node_views(out@));
    let focus = r.u64()?;
    let scale = r.u32()?;
    Ok(AccessSnapshot { nodes: out, focus, scale })
}

} // verus!
