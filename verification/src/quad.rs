//! A quad on the pipe. It crosses sparsely: a byte names which of its parts are not all
//! zero, and only those follow. "Zero" is the renderer's: a part whose
//! four floats all compare equal to `0.0`, which `-0.0` does too.

use vstd::prelude::*;

use crate::wire::{
    at, enc_f4, enc_u32, enc_u8, lemma_at_split, lemma_read_f4, lemma_read_u32, lemma_read_u8,
    p_f4, p_u8, arr4, WireError, R, W,
};

verus! {

/// One quad: seven parts of four `f32`s by their bits, and the eight
/// sixteen-bit words of where it moved from.
#[derive(Debug, Clone, Copy, PartialEq, Eq)]
pub struct Quad {
    pub rect: [u32; 4],
    pub params: [u32; 4],
    pub fill: [u32; 4],
    pub stroke: [u32; 4],
    pub uv: [u32; 4],
    pub extra: [u32; 4],
    pub spin: [u32; 4],
    pub from: [u16; 8],
}

pub struct QuadModel {
    /// `rect, params, fill, stroke, uv, extra, spin`, in that order.
    pub parts: Seq<Seq<u32>>,
    pub from: Seq<u16>,
}

impl View for Quad {
    type V = QuadModel;

    open spec fn view(&self) -> QuadModel {
        QuadModel {
            parts: seq![
                self.rect@,
                self.params@,
                self.fill@,
                self.stroke@,
                self.uv@,
                self.extra@,
                self.spin@,
            ],
            from: self.from@,
        }
    }
}

/// A word that is an `f32` equal to zero: `+0.0` or `-0.0`.
pub open spec fn zero_f32(c: u32) -> bool {
    c % 2147483648 == 0
}

/// A part the renderer reads: one of its four floats is not zero.
pub open spec fn part_nz(p: Seq<u32>) -> bool {
    !zero_f32(p[0]) || !zero_f32(p[1]) || !zero_f32(p[2]) || !zero_f32(p[3])
}

pub open spec fn from_nz(f: Seq<u16>) -> bool {
    f[0] != 0 || f[1] != 0 || f[2] != 0 || f[3] != 0 || f[4] != 0 || f[5] != 0 || f[6] != 0
        || f[7] != 0
}

pub open spec fn bit8(b: bool, v: u8) -> u8 {
    if b {
        v
    } else {
        0u8
    }
}

/// The byte that says which parts follow.
#[verifier::opaque]
pub open spec fn quad_mask(q: QuadModel) -> u8 {
    bit8(part_nz(q.parts[0]), 1) | bit8(part_nz(q.parts[1]), 2) | bit8(part_nz(q.parts[2]), 4)
        | bit8(part_nz(q.parts[3]), 8) | bit8(part_nz(q.parts[4]), 16) | bit8(
        part_nz(q.parts[5]),
        32,
    ) | bit8(part_nz(q.parts[6]), 64) | bit8(from_nz(q.from), 128)
}

pub open spec fn enc_part(p: Seq<u32>) -> Seq<u8> {
    if part_nz(p) {
        enc_f4(p)
    } else {
        Seq::empty()
    }
}

pub open spec fn word_of(lo: u16, hi: u16) -> u32 {
    (lo as int + hi as int * 65536) as u32
}

pub open spec fn enc_from(f: Seq<u16>) -> Seq<u8> {
    enc_u32(word_of(f[0], f[1])) + enc_u32(word_of(f[2], f[3])) + enc_u32(word_of(f[4], f[5]))
        + enc_u32(word_of(f[6], f[7]))
}

pub open spec fn enc_parts_a(ps: Seq<Seq<u32>>) -> Seq<u8> {
    enc_part(ps[0]) + enc_part(ps[1]) + enc_part(ps[2]) + enc_part(ps[3])
}

pub open spec fn enc_parts_b(ps: Seq<Seq<u32>>) -> Seq<u8> {
    enc_part(ps[4]) + enc_part(ps[5]) + enc_part(ps[6])
}

pub open spec fn enc_tail(f: Seq<u16>) -> Seq<u8> {
    if from_nz(f) {
        enc_from(f)
    } else {
        Seq::empty()
    }
}

pub open spec fn enc_quad(q: QuadModel) -> Seq<u8> {
    enc_u8(quad_mask(q)) + enc_parts_a(q.parts) + enc_parts_b(q.parts) + enc_tail(q.from)
}

pub open spec fn zero4() -> Seq<u32> {
    seq![0u32, 0u32, 0u32, 0u32]
}

pub open spec fn zero8() -> Seq<u16> {
    seq![0u16, 0u16, 0u16, 0u16, 0u16, 0u16, 0u16, 0u16]
}

/// A quad the wire can say whole: every part the renderer ignores is
/// `+0.0` four times over.
pub open spec fn wf_quad(q: QuadModel) -> bool {
    &&& q.parts.len() == 7
    &&& q.from.len() == 8
    &&& forall|k: int| 0 <= k < 7 ==> (#[trigger] q.parts[k]).len() == 4
    &&& forall|k: int| 0 <= k < 7 ==> !part_nz(#[trigger] q.parts[k]) ==> q.parts[k] =~= zero4()
}

/// Whether the mask says part `k` follows.
pub open spec fn mask_has(mask: u8, v: u8) -> bool {
    mask & v != 0
}

pub open spec fn p_part(s: Seq<u8>, i: int, present: bool) -> Result<(Seq<u32>, int), WireError> {
    if present {
        p_f4(s, i)
    } else {
        Ok((zero4(), i))
    }
}

pub open spec fn halves(v: u32) -> Seq<u16> {
    seq![(v % 65536) as u16, (v / 65536) as u16]
}

pub open spec fn p_from(s: Seq<u8>, i: int, present: bool) -> Result<(Seq<u16>, int), WireError> {
    if present {
        if i + 16 > s.len() {
            Err(WireError::Truncated)
        } else {
            Ok(
                (
                    halves(le32_at(s, i)) + halves(le32_at(s, i + 4)) + halves(le32_at(s, i + 8))
                        + halves(le32_at(s, i + 12)),
                    i + 16,
                ),
            )
        }
    } else {
        Ok((zero8(), i))
    }
}

pub open spec fn le32_at(s: Seq<u8>, i: int) -> u32 {
    crate::wire::le32(s, i)
}

pub open spec fn p_parts_a(s: Seq<u8>, i: int, mask: u8) -> Result<(Seq<Seq<u32>>, int), WireError> {
    match p_part(s, i, mask_has(mask, 1)) {
        Ok((p0, i)) => match p_part(s, i, mask_has(mask, 2)) {
            Ok((p1, i)) => match p_part(s, i, mask_has(mask, 4)) {
                Ok((p2, i)) => match p_part(s, i, mask_has(mask, 8)) {
                    Ok((p3, i)) => Ok((seq![p0, p1, p2, p3], i)),
                    Err(e) => Err(e),
                },
                Err(e) => Err(e),
            },
            Err(e) => Err(e),
        },
        Err(e) => Err(e),
    }
}

pub open spec fn p_parts_b(s: Seq<u8>, i: int, mask: u8) -> Result<(Seq<Seq<u32>>, int), WireError> {
    match p_part(s, i, mask_has(mask, 16)) {
        Ok((p4, i)) => match p_part(s, i, mask_has(mask, 32)) {
            Ok((p5, i)) => match p_part(s, i, mask_has(mask, 64)) {
                Ok((p6, i)) => Ok((seq![p4, p5, p6], i)),
                Err(e) => Err(e),
            },
            Err(e) => Err(e),
        },
        Err(e) => Err(e),
    }
}

pub open spec fn p_quad_body(s: Seq<u8>, i: int, mask: u8) -> Result<(QuadModel, int), WireError> {
    match p_parts_a(s, i, mask) {
        Ok((a, j)) => match p_parts_b(s, j, mask) {
            Ok((b, k)) => match p_from(s, k, mask_has(mask, 128)) {
                Ok((from, l)) => Ok((QuadModel { parts: a + b, from }, l)),
                Err(e) => Err(e),
            },
            Err(e) => Err(e),
        },
        Err(e) => Err(e),
    }
}

pub open spec fn p_quad(s: Seq<u8>, i: int) -> Result<(QuadModel, int), WireError> {
    match p_u8(s, i) {
        Ok((mask, j)) => p_quad_body(s, j, mask),
        Err(e) => Err(e),
    }
}

proof fn lemma_mask_bits(b0: bool, b1: bool, b2: bool, b3: bool, b4: bool, b5: bool, b6: bool, b7: bool)
    ensures
        ({
            let m = bit8(b0, 1) | bit8(b1, 2) | bit8(b2, 4) | bit8(b3, 8) | bit8(b4, 16) | bit8(
                b5,
                32,
            ) | bit8(b6, 64) | bit8(b7, 128);
            &&& mask_has(m, 1) == b0
            &&& mask_has(m, 2) == b1
            &&& mask_has(m, 4) == b2
            &&& mask_has(m, 8) == b3
            &&& mask_has(m, 16) == b4
            &&& mask_has(m, 32) == b5
            &&& mask_has(m, 64) == b6
            &&& mask_has(m, 128) == b7
        }),
{
    let (c0, c1, c2, c3, c4, c5, c6, c7) = (
        bit8(b0, 1),
        bit8(b1, 2),
        bit8(b2, 4),
        bit8(b3, 8),
        bit8(b4, 16),
        bit8(b5, 32),
        bit8(b6, 64),
        bit8(b7, 128),
    );
    assert({
        let m = c0 | c1 | c2 | c3 | c4 | c5 | c6 | c7;
        &&& (m & 1 != 0) == (c0 != 0)
        &&& (m & 2 != 0) == (c1 != 0)
        &&& (m & 4 != 0) == (c2 != 0)
        &&& (m & 8 != 0) == (c3 != 0)
        &&& (m & 16 != 0) == (c4 != 0)
        &&& (m & 32 != 0) == (c5 != 0)
        &&& (m & 64 != 0) == (c6 != 0)
        &&& (m & 128 != 0) == (c7 != 0)
    }) by (bit_vector)
        requires
            c0 == 0 || c0 == 1,
            c1 == 0 || c1 == 2,
            c2 == 0 || c2 == 4,
            c3 == 0 || c3 == 8,
            c4 == 0 || c4 == 16,
            c5 == 0 || c5 == 32,
            c6 == 0 || c6 == 64,
            c7 == 0 || c7 == 128,
    ;
}

proof fn lemma_quad_mask(q: QuadModel)
    ensures
        mask_has(quad_mask(q), 1) == part_nz(q.parts[0]),
        mask_has(quad_mask(q), 2) == part_nz(q.parts[1]),
        mask_has(quad_mask(q), 4) == part_nz(q.parts[2]),
        mask_has(quad_mask(q), 8) == part_nz(q.parts[3]),
        mask_has(quad_mask(q), 16) == part_nz(q.parts[4]),
        mask_has(quad_mask(q), 32) == part_nz(q.parts[5]),
        mask_has(quad_mask(q), 64) == part_nz(q.parts[6]),
        mask_has(quad_mask(q), 128) == from_nz(q.from),
{
    reveal(quad_mask);
    lemma_mask_bits(
        part_nz(q.parts[0]),
        part_nz(q.parts[1]),
        part_nz(q.parts[2]),
        part_nz(q.parts[3]),
        part_nz(q.parts[4]),
        part_nz(q.parts[5]),
        part_nz(q.parts[6]),
        from_nz(q.from),
    );
}

proof fn lemma_halves(lo: u16, hi: u16)
    ensures
        halves(word_of(lo, hi)) == seq![lo, hi],
{
    let v = word_of(lo, hi);
    assert(v as int == lo as int + hi as int * 65536);
    assert(v % 65536 == lo as int && v / 65536 == hi as int) by (nonlinear_arith)
        requires
            v as int == lo as int + hi as int * 65536,
            0 <= lo < 65536,
            0 <= hi < 65536,
    ;
    assert(halves(v) =~= seq![lo, hi]);
}

proof fn lemma_read_from(s: Seq<u8>, i: int, f: Seq<u16>)
    requires
        at(s, i, enc_from(f)),
        f.len() == 8,
    ensures
        p_from(s, i, true) == Ok::<(Seq<u16>, int), WireError>((f, i + 16)),
{
    let (a, b, c, d) = (
        enc_u32(word_of(f[0], f[1])),
        enc_u32(word_of(f[2], f[3])),
        enc_u32(word_of(f[4], f[5])),
        enc_u32(word_of(f[6], f[7])),
    );
    lemma_at_split(s, i, a + b + c, d);
    lemma_at_split(s, i, a + b, c);
    lemma_at_split(s, i, a, b);
    lemma_read_u32(s, i, word_of(f[0], f[1]));
    lemma_read_u32(s, i + 4, word_of(f[2], f[3]));
    lemma_read_u32(s, i + 8, word_of(f[4], f[5]));
    lemma_read_u32(s, i + 12, word_of(f[6], f[7]));
    lemma_halves(f[0], f[1]);
    lemma_halves(f[2], f[3]);
    lemma_halves(f[4], f[5]);
    lemma_halves(f[6], f[7]);
    assert(seq![f[0], f[1]] + seq![f[2], f[3]] + seq![f[4], f[5]] + seq![f[6], f[7]] =~= f);
}

proof fn lemma_read_part(s: Seq<u8>, i: int, p: Seq<u32>, present: bool)
    requires
        at(s, i, enc_part(p)),
        p.len() == 4,
        present == part_nz(p),
        !part_nz(p) ==> p =~= zero4(),
    ensures
        p_part(s, i, present) == Ok::<(Seq<u32>, int), WireError>((p, i + enc_part(p).len())),
{
    if present {
        lemma_read_f4(s, i, p);
    }
}

#[verifier::rlimit(100)]
proof fn lemma_read_parts_a(s: Seq<u8>, i: int, ps: Seq<Seq<u32>>, m: u8)
    requires
        at(s, i, enc_parts_a(ps)),
        ps.len() == 7,
        ps[0].len() == 4 && ps[1].len() == 4 && ps[2].len() == 4 && ps[3].len() == 4,
        !part_nz(ps[0]) ==> ps[0] == zero4(),
        !part_nz(ps[1]) ==> ps[1] == zero4(),
        !part_nz(ps[2]) ==> ps[2] == zero4(),
        !part_nz(ps[3]) ==> ps[3] == zero4(),
        mask_has(m, 1) == part_nz(ps[0]),
        mask_has(m, 2) == part_nz(ps[1]),
        mask_has(m, 4) == part_nz(ps[2]),
        mask_has(m, 8) == part_nz(ps[3]),
    ensures
        p_parts_a(s, i, m) == Ok::<(Seq<Seq<u32>>, int), WireError>(
            (ps.take(4), i + enc_parts_a(ps).len()),
        ),
{
    let e1 = enc_part(ps[0]);
    let e2 = e1 + enc_part(ps[1]);
    let e3 = e2 + enc_part(ps[2]);
    let e4 = e3 + enc_part(ps[3]);
    assert(e4 == enc_parts_a(ps));
    assert(p_part(s, i, mask_has(m, 1)) == Ok::<(Seq<u32>, int), WireError>((ps[0], i + e1.len())))
        by {
        lemma_at_split(s, i, e3, enc_part(ps[3]));
        lemma_at_split(s, i, e2, enc_part(ps[2]));
        lemma_at_split(s, i, e1, enc_part(ps[1]));
        assert(!part_nz(ps[0]) ==> ps[0] =~= zero4());
        lemma_read_part(s, i, ps[0], mask_has(m, 1));
    }
    assert(p_part(s, i + e1.len(), mask_has(m, 2)) == Ok::<(Seq<u32>, int), WireError>(
        (ps[1], i + e2.len()),
    )) by {
        lemma_at_split(s, i, e3, enc_part(ps[3]));
        lemma_at_split(s, i, e2, enc_part(ps[2]));
        lemma_at_split(s, i, e1, enc_part(ps[1]));
        assert(!part_nz(ps[1]) ==> ps[1] =~= zero4());
        lemma_read_part(s, i + e1.len(), ps[1], mask_has(m, 2));
    }
    assert(p_part(s, i + e2.len(), mask_has(m, 4)) == Ok::<(Seq<u32>, int), WireError>(
        (ps[2], i + e3.len()),
    )) by {
        lemma_at_split(s, i, e3, enc_part(ps[3]));
        lemma_at_split(s, i, e2, enc_part(ps[2]));
        assert(!part_nz(ps[2]) ==> ps[2] =~= zero4());
        lemma_read_part(s, i + e2.len(), ps[2], mask_has(m, 4));
    }
    assert(p_part(s, i + e3.len(), mask_has(m, 8)) == Ok::<(Seq<u32>, int), WireError>(
        (ps[3], i + e4.len()),
    )) by {
        lemma_at_split(s, i, e3, enc_part(ps[3]));
        assert(!part_nz(ps[3]) ==> ps[3] =~= zero4());
        lemma_read_part(s, i + e3.len(), ps[3], mask_has(m, 8));
    }
    assert(seq![ps[0], ps[1], ps[2], ps[3]] =~= ps.take(4));
}

proof fn lemma_read_parts_b(s: Seq<u8>, i: int, ps: Seq<Seq<u32>>, m: u8)
    requires
        at(s, i, enc_parts_b(ps)),
        ps.len() == 7,
        ps[4].len() == 4 && ps[5].len() == 4 && ps[6].len() == 4,
        !part_nz(ps[4]) ==> ps[4] == zero4(),
        !part_nz(ps[5]) ==> ps[5] == zero4(),
        !part_nz(ps[6]) ==> ps[6] == zero4(),
        mask_has(m, 16) == part_nz(ps[4]),
        mask_has(m, 32) == part_nz(ps[5]),
        mask_has(m, 64) == part_nz(ps[6]),
    ensures
        p_parts_b(s, i, m) == Ok::<(Seq<Seq<u32>>, int), WireError>(
            (ps.skip(4), i + enc_parts_b(ps).len()),
        ),
{
    let e1 = enc_part(ps[4]);
    let e2 = e1 + enc_part(ps[5]);
    lemma_at_split(s, i, e2, enc_part(ps[6]));
    lemma_at_split(s, i, e1, enc_part(ps[5]));
    assert(ps[4].len() == 4 && ps[5].len() == 4 && ps[6].len() == 4);
    assert(!part_nz(ps[4]) ==> ps[4] =~= zero4());
    assert(!part_nz(ps[5]) ==> ps[5] =~= zero4());
    assert(!part_nz(ps[6]) ==> ps[6] =~= zero4());
    lemma_read_part(s, i, ps[4], mask_has(m, 16));
    lemma_read_part(s, i + e1.len(), ps[5], mask_has(m, 32));
    lemma_read_part(s, i + e2.len(), ps[6], mask_has(m, 64));
    assert(seq![ps[4], ps[5], ps[6]] =~= ps.skip(4));
}

#[verifier::rlimit(100)]
pub proof fn lemma_read_quad(s: Seq<u8>, i: int, q: QuadModel)
    requires
        at(s, i, enc_quad(q)),
        wf_quad(q),
    ensures
        p_quad(s, i) == Ok::<(QuadModel, int), WireError>((q, i + enc_quad(q).len())),
{
    let m = quad_mask(q);
    let ps = q.parts;
    lemma_quad_mask(q);
    let e0 = enc_u8(m);
    let e1 = e0 + enc_parts_a(ps);
    let e2 = e1 + enc_parts_b(ps);
    lemma_at_split(s, i, e2, enc_tail(q.from));
    lemma_at_split(s, i, e1, enc_parts_b(ps));
    lemma_at_split(s, i, e0, enc_parts_a(ps));
    lemma_read_u8(s, i, m);
    assert forall|k: int| 0 <= k < 7 implies ps[k].len() == 4 && (!part_nz(ps[k]) ==> ps[k]
        == zero4()) by {
        assert(!part_nz(ps[k]) ==> ps[k] =~= zero4());
    }
    assert(ps[0].len() == 4 && ps[1].len() == 4 && ps[2].len() == 4 && ps[3].len() == 4);
    assert(ps[4].len() == 4 && ps[5].len() == 4 && ps[6].len() == 4);
    lemma_read_parts_a(s, i + 1, ps, m);
    lemma_read_parts_b(s, i + e1.len(), ps, m);
    if from_nz(q.from) {
        lemma_read_from(s, i + e2.len(), q.from);
    } else {
        assert(q.from =~= zero8());
    }
    assert(ps.take(4) + ps.skip(4) =~= ps);
}

// ------------------------------------------------------------------ exec

fn part_is_nz(p: &[u32; 4]) -> (b: bool)
    ensures
        b == part_nz(p@),
{
    p[0] % 2147483648 != 0 || p[1] % 2147483648 != 0 || p[2] % 2147483648 != 0 || p[3]
        % 2147483648 != 0
}

fn put_part(w: &mut W, p: &[u32; 4])
    ensures
        final(w).buf@ == old(w).buf@ + enc_part(p@),
{
    if part_is_nz(p) {
        w.f4(p);
    } else {
        assert(old(w).buf@ + enc_part(p@) =~= old(w).buf@);
    }
}

fn quad_mask_of(q: &Quad) -> (m: u8)
    ensures
        m == quad_mask(q@),
{
    reveal(quad_mask);
    let f = q.from;
    let from_on = f[0] != 0 || f[1] != 0 || f[2] != 0 || f[3] != 0 || f[4] != 0 || f[5] != 0
        || f[6] != 0 || f[7] != 0;
    (if part_is_nz(&q.rect) {
        1u8
    } else {
        0u8
    }) | (if part_is_nz(&q.params) {
        2u8
    } else {
        0u8
    }) | (if part_is_nz(&q.fill) {
        4u8
    } else {
        0u8
    }) | (if part_is_nz(&q.stroke) {
        8u8
    } else {
        0u8
    }) | (if part_is_nz(&q.uv) {
        16u8
    } else {
        0u8
    }) | (if part_is_nz(&q.extra) {
        32u8
    } else {
        0u8
    }) | (if part_is_nz(&q.spin) {
        64u8
    } else {
        0u8
    }) | (if from_on {
        128u8
    } else {
        0u8
    })
}

fn put_tail(w: &mut W, f: &[u16; 8])
    ensures
        final(w).buf@ == old(w).buf@ + enc_tail(f@),
{
    let from_on = f[0] != 0 || f[1] != 0 || f[2] != 0 || f[3] != 0 || f[4] != 0 || f[5] != 0
        || f[6] != 0 || f[7] != 0;
    if from_on {
        w.u32(f[0] as u32 + (f[1] as u32) * 65536);
        w.u32(f[2] as u32 + (f[3] as u32) * 65536);
        w.u32(f[4] as u32 + (f[5] as u32) * 65536);
        w.u32(f[6] as u32 + (f[7] as u32) * 65536);
        assert(w.buf@ =~= old(w).buf@ + enc_tail(f@));
    } else {
        assert(w.buf@ =~= old(w).buf@ + enc_tail(f@));
    }
}

/// Write `q` after what `w` holds.
pub fn put_quad(w: &mut W, q: &Quad)
    ensures
        final(w).buf@ == old(w).buf@ + enc_quad(q@),
{
    let ghost start = w.buf@;
    let mask = quad_mask_of(q);
    w.u8(mask);
    let ghost s1 = w.buf@;
    put_part(w, &q.rect);
    put_part(w, &q.params);
    put_part(w, &q.fill);
    put_part(w, &q.stroke);
    assert(w.buf@ =~= s1 + enc_parts_a(q@.parts));
    let ghost s2 = w.buf@;
    put_part(w, &q.uv);
    put_part(w, &q.extra);
    put_part(w, &q.spin);
    assert(w.buf@ =~= s2 + enc_parts_b(q@.parts));
    put_tail(w, &q.from);
    assert(w.buf@ =~= start + enc_quad(q@));
}

fn get_part(r: &mut R, present: bool) -> (res: Result<[u32; 4], WireError>)
    requires
        old(r).ok(),
    ensures
        final(r).ok(),
        final(r).b == old(r).b,
        match p_part(old(r).s(), old(r).i as int, present) {
            Ok((v, j)) => res matches Ok(x) && x@ == v && final(r).i == j,
            Err(e) => res matches Err(x) && x == e,
        },
{
    if present {
        r.f4()
    } else {
        Ok(arr4(0, 0, 0, 0))
    }
}

fn get_from(r: &mut R, present: bool) -> (res: Result<[u16; 8], WireError>)
    requires
        old(r).ok(),
    ensures
        final(r).ok(),
        final(r).b == old(r).b,
        match p_from(old(r).s(), old(r).i as int, present) {
            Ok((v, j)) => res matches Ok(x) && x@ == v && final(r).i == j,
            Err(e) => res matches Err(x) && x == e,
        },
{
    if present {
        if r.b.len() - r.i < 16 {
            return Err(WireError::Truncated);
        }
        let a = r.u32()?;
        let b = r.u32()?;
        let c = r.u32()?;
        let d = r.u32()?;
        let x = [
            (a % 65536) as u16,
            (a / 65536) as u16,
            (b % 65536) as u16,
            (b / 65536) as u16,
            (c % 65536) as u16,
            (c / 65536) as u16,
            (d % 65536) as u16,
            (d / 65536) as u16,
        ];
        assert(x@ =~= halves(a) + halves(b) + halves(c) + halves(d));
        Ok(x)
    } else {
        let x = [0u16; 8];
        assert(x@ =~= zero8());
        Ok(x)
    }
}

fn get_parts_a(r: &mut R, mask: u8) -> (res: Result<([u32; 4], [u32; 4], [u32; 4], [u32; 4]), WireError>)
    requires
        old(r).ok(),
    ensures
        final(r).ok(),
        final(r).b == old(r).b,
        match p_parts_a(old(r).s(), old(r).i as int, mask) {
            Ok((v, j)) => res matches Ok(x) && seq![x.0@, x.1@, x.2@, x.3@] == v && final(r).i == j,
            Err(e) => res matches Err(x) && x == e,
        },
{
    let a = get_part(r, mask & 1 != 0)?;
    let b = get_part(r, mask & 2 != 0)?;
    let c = get_part(r, mask & 4 != 0)?;
    let d = get_part(r, mask & 8 != 0)?;
    Ok((a, b, c, d))
}

fn get_parts_b(r: &mut R, mask: u8) -> (res: Result<([u32; 4], [u32; 4], [u32; 4]), WireError>)
    requires
        old(r).ok(),
    ensures
        final(r).ok(),
        final(r).b == old(r).b,
        match p_parts_b(old(r).s(), old(r).i as int, mask) {
            Ok((v, j)) => res matches Ok(x) && seq![x.0@, x.1@, x.2@] == v && final(r).i == j,
            Err(e) => res matches Err(x) && x == e,
        },
{
    let a = get_part(r, mask & 16 != 0)?;
    let b = get_part(r, mask & 32 != 0)?;
    let c = get_part(r, mask & 64 != 0)?;
    Ok((a, b, c))
}

/// Read a quad at the reader's cursor.
pub fn get_quad(r: &mut R) -> (res: Result<Quad, WireError>)
    requires
        old(r).ok(),
    ensures
        final(r).ok(),
        final(r).b == old(r).b,
        match p_quad(old(r).s(), old(r).i as int) {
            Ok((v, j)) => res matches Ok(x) && x@ == v && final(r).i == j,
            Err(e) => res matches Err(x) && x == e,
        },
{
    let mask = r.u8()?;
    let (rect, params, fill, stroke) = get_parts_a(r, mask)?;
    let (uv, extra, spin) = get_parts_b(r, mask)?;
    let from = get_from(r, mask & 128 != 0)?;
    let q = Quad { rect, params, fill, stroke, uv, extra, spin, from };
    assert(q@.parts =~= seq![rect@, params@, fill@, stroke@] + seq![uv@, extra@, spin@]);
    Ok(q)
}


} // verus!
