//! The two icon containers an installed application's picture is filed in:
//! macOS's `.icns` and Windows' `.ico`. Both hold PNGs as they are, each
//! already drawn at the size its slot declares, so either container is a
//! table of contents and the pictures.

use vstd::prelude::*;

use crate::text::{from_chars, push_str};
use crate::wire::enc_u32;

verus! {

/// Big-endian, as `.icns` counts.
pub open spec fn be32(v: u32) -> Seq<u8> {
    seq![(v / 16777216) as u8, ((v / 65536) % 256) as u8, ((v / 256) % 256) as u8, (v % 256) as u8]
}

/// Little-endian, as `.ico` counts.
pub open spec fn le16(v: u16) -> Seq<u8> {
    seq![(v % 256) as u8, (v / 256) as u8]
}

/// The four-byte type of the `.icns` slot for each side.
pub open spec fn icns_kind(i: int) -> Seq<u8> {
    if i == 0 {
        seq![105u8, 99u8, 48u8, 55u8]
    } else if i == 1 {
        seq![105u8, 99u8, 48u8, 56u8]
    } else {
        seq![105u8, 99u8, 48u8, 57u8]
    }
}

/// The chunks of an `.icns`: type, length with its own eight bytes, PNG.
pub open spec fn icns_chunks(ps: Seq<Seq<u8>>) -> Seq<u8>
    decreases ps.len(),
{
    if ps.len() == 0 {
        Seq::empty()
    } else {
        let i = ps.len() - 1;
        icns_chunks(ps.drop_last()) + icns_kind(i) + be32((ps[i].len() + 8) as u32) + ps[i]
    }
}

/// Whether every length an `.icns` of `ps` declares fits in its field.
pub open spec fn icns_fits(ps: Seq<Seq<u8>>) -> bool {
    &&& forall|i: int| 0 <= i < ps.len() ==> (#[trigger] ps[i]).len() + 8 <= u32::MAX
    &&& icns_chunks(ps).len() + 8 <= u32::MAX
}

/// The text every refusal here gives.
pub open spec fn too_large() -> Seq<char> {
    "the icon is too large"@
}

fn push_be32(v: &mut Vec<u8>, x: u32)
    ensures
        final(v)@ == old(v)@ + be32(x),
{
    v.push((x / 16777216) as u8);
    v.push(((x / 65536) % 256) as u8);
    v.push(((x / 256) % 256) as u8);
    v.push((x % 256) as u8);
    assert(v@ =~= old(v)@ + be32(x));
}

fn push_le16(v: &mut Vec<u8>, x: u16)
    ensures
        final(v)@ == old(v)@ + le16(x),
{
    v.push((x % 256) as u8);
    v.push((x / 256) as u8);
    assert(v@ =~= old(v)@ + le16(x));
}

fn push_le32(v: &mut Vec<u8>, x: u32)
    ensures
        final(v)@ == old(v)@ + enc_u32(x),
{
    v.push((x % 256) as u8);
    v.push(((x / 256) % 256) as u8);
    v.push(((x / 65536) % 256) as u8);
    v.push((x / 16777216) as u8);
    assert(v@ =~= old(v)@ + enc_u32(x));
}

fn push_icns_kind(v: &mut Vec<u8>, i: usize)
    ensures
        final(v)@ == old(v)@ + icns_kind(i as int),
{
    v.push(105u8);
    v.push(99u8);
    v.push(48u8);
    if i == 0 {
        v.push(55u8);
    } else if i == 1 {
        v.push(56u8);
    } else {
        v.push(57u8);
    }
    assert(v@ =~= old(v)@ + icns_kind(i as int));
}

/// A whole `.icns` of the PNGs `ps`: the magic, the file's length, the chunks.
pub open spec fn icns_file(ps: Seq<Seq<u8>>) -> Seq<u8> {
    seq![105u8, 99u8, 110u8, 115u8] + be32((icns_chunks(ps).len() + 8) as u32) + icns_chunks(ps)
}

/// The `.icns` container of PNGs already drawn at 128, 256 and 512 pixels a
/// side: the header, then one chunk per size. Refused when a length it must
/// declare does not fit in four bytes.
pub fn icns_container(pictures: &Vec<Vec<u8>>) -> (r: Result<Vec<u8>, String>)
    requires
        pictures@.len() == 3,
    ensures
        match r {
            Ok(out) => {
                let ps = pictures@.map_values(|p: Vec<u8>| p@);
                &&& icns_fits(ps)
                &&& out@ == icns_file(ps)
            },
            Err(e) => !icns_fits(pictures@.map_values(|p: Vec<u8>| p@)) && e@ == too_large(),
        },
{
    let ghost ps = pictures@.map_values(|p: Vec<u8>| p@);
    let mut body: Vec<u8> = Vec::new();
    let mut k: usize = 0;
    while k < 3
        invariant
            pictures@.len() == 3,
            ps == pictures@.map_values(|p: Vec<u8>| p@),
            k <= 3,
            body@ == icns_chunks(ps.take(k as int)),
            forall|i: int| 0 <= i < k ==> (#[trigger] ps[i]).len() + 8 <= u32::MAX,
        decreases 3 - k,
    {
        let one = &pictures[k];
        if one.len() > 4294967287 {
            proof {
                assert(ps[k as int] == one@);
            }
            return Err("the icon is too large".to_string());
        }
        let len = (one.len() + 8) as u32;
        push_icns_kind(&mut body, k);
        push_be32(&mut body, len);
        body.extend_from_slice(one.as_slice());
        proof {
            assert(ps[k as int] == one@);
            assert(ps.take(k + 1).drop_last() =~= ps.take(k as int));
            assert(ps.take(k + 1)[k as int] == ps[k as int]);
        }
        k = k + 1;
        assert(body@ =~= icns_chunks(ps.take(k as int)));
    }
    assert(ps.take(3) =~= ps);
    if body.len() > 4294967287 {
        return Err("the icon is too large".to_string());
    }
    let total = (body.len() + 8) as u32;
    let mut out: Vec<u8> = Vec::new();
    out.push(105u8);
    out.push(99u8);
    out.push(110u8);
    out.push(115u8);
    push_be32(&mut out, total);
    out.extend_from_slice(body.as_slice());
    assert(out@ =~= seq![105u8, 99u8, 110u8, 115u8] + be32(total) + body@);
    Ok(out)
}

/// The sides of the `.ico` entries, in order.
pub open spec fn ico_edge(i: int) -> u32 {
    if i == 0 {
        16
    } else if i == 1 {
        32
    } else if i == 2 {
        48
    } else {
        256
    }
}

fn ico_edge_of(i: usize) -> (e: u32)
    ensures
        e == ico_edge(i as int),
{
    if i == 0 {
        16
    } else if i == 1 {
        32
    } else if i == 2 {
        48
    } else {
        256
    }
}

/// A side as its one-byte field holds it: 256 does not fit, and is zero.
pub open spec fn side_byte(edge: u32) -> u8 {
    if edge < 256 {
        edge as u8
    } else {
        0
    }
}

/// Where the `i`th picture starts: after the six-byte header, the sixteen
/// bytes of each entry, and the pictures before it (counted up to the most
/// a `u32` holds).
pub open spec fn ico_offset(ps: Seq<Seq<u8>>, i: int) -> u32
    decreases i,
{
    if i <= 0 {
        70
    } else {
        let before = ico_offset(ps, i - 1) + ps[i - 1].len();
        if before > u32::MAX {
            u32::MAX
        } else {
            before as u32
        }
    }
}

/// One entry of the directory: square, no palette, one plane, 32 bits a
/// pixel, the PNG's length and where it is.
pub open spec fn ico_entry(edge: u32, len: u32, at: u32) -> Seq<u8> {
    seq![side_byte(edge), side_byte(edge), 0u8, 0u8] + le16(1) + le16(32) + enc_u32(len) + enc_u32(at)
}

/// The directory's entries for the first `k` pictures.
pub open spec fn ico_entries(ps: Seq<Seq<u8>>, k: int) -> Seq<u8>
    decreases k,
{
    if k <= 0 {
        Seq::empty()
    } else {
        ico_entries(ps, k - 1) + ico_entry(ico_edge(k - 1), ps[k - 1].len() as u32, ico_offset(ps, k - 1))
    }
}

/// The pictures, one after another.
pub open spec fn all_of(ps: Seq<Seq<u8>>) -> Seq<u8>
    decreases ps.len(),
{
    if ps.len() == 0 {
        Seq::empty()
    } else {
        all_of(ps.drop_last()) + ps.last()
    }
}

/// A whole `.ico` of the PNGs `ps`: header, directory, pictures.
pub open spec fn ico_file(ps: Seq<Seq<u8>>) -> Seq<u8> {
    le16(0) + le16(1) + le16(4) + ico_entries(ps, 4) + all_of(ps)
}

/// The `.ico` container of PNGs already drawn at 16, 32, 48 and 256 pixels
/// a side: a header, one entry per picture, and the pictures. Refused when
/// a picture's length does not fit in its four-byte field.
pub fn ico_container(pictures: &Vec<Vec<u8>>) -> (r: Result<Vec<u8>, String>)
    requires
        pictures@.len() == 4,
    ensures
        match r {
            Ok(out) => {
                let ps = pictures@.map_values(|p: Vec<u8>| p@);
                &&& forall|i: int| 0 <= i < 4 ==> (#[trigger] ps[i]).len() <= u32::MAX
                &&& out@ == ico_file(ps)
            },
            Err(e) => (exists|i: int| 0 <= i < 4 && (#[trigger] pictures@[i])@.len() > u32::MAX)
                && e@ == too_large(),
        },
{
    let ghost ps = pictures@.map_values(|p: Vec<u8>| p@);
    let mut dir: Vec<u8> = Vec::new();
    push_le16(&mut dir, 0);
    push_le16(&mut dir, 1);
    push_le16(&mut dir, 4);
    let ghost head = dir@;
    let mut offset: u32 = 70;
    let mut k: usize = 0;
    while k < 4
        invariant
            pictures@.len() == 4,
            ps == pictures@.map_values(|p: Vec<u8>| p@),
            k <= 4,
            head == le16(0) + le16(1) + le16(4),
            dir@ == head + ico_entries(ps, k as int),
            offset == ico_offset(ps, k as int),
            forall|i: int| 0 <= i < k ==> (#[trigger] ps[i]).len() <= u32::MAX,
        decreases 4 - k,
    {
        let one = &pictures[k];
        proof {
            assert(ps[k as int] == one@);
        }
        if one.len() > 4294967295 {
            return Err("the icon is too large".to_string());
        }
        let len = one.len() as u32;
        let edge = ico_edge_of(k);
        let side: u8 = if edge < 256 { edge as u8 } else { 0 };
        let ghost before = dir@;
        dir.push(side);
        dir.push(side);
        dir.push(0);
        dir.push(0);
        push_le16(&mut dir, 1);
        push_le16(&mut dir, 32);
        push_le32(&mut dir, len);
        push_le32(&mut dir, offset);
        assert(dir@ =~= before + ico_entry(edge, len, offset));
        offset = if len > 4294967295 - offset { 4294967295 } else { offset + len };
        k = k + 1;
        assert(dir@ =~= head + ico_entries(ps, k as int));
    }
    let mut j: usize = 0;
    while j < 4
        invariant
            pictures@.len() == 4,
            ps == pictures@.map_values(|p: Vec<u8>| p@),
            j <= 4,
            dir@ == head + ico_entries(ps, 4) + all_of(ps.take(j as int)),
        decreases 4 - j,
    {
        dir.extend_from_slice(pictures[j].as_slice());
        proof {
            assert(ps[j as int] == pictures@[j as int]@);
            assert(ps.take(j + 1).drop_last() =~= ps.take(j as int));
        }
        j = j + 1;
        assert(dir@ =~= head + ico_entries(ps, 4) + all_of(ps.take(j as int)));
    }
    assert(ps.take(4) =~= ps);
    Ok(dir)
}

/// A picture as RGBA bytes, four to a pixel, row by row.
pub struct Image {
    pub width: u32,
    pub height: u32,
    pub rgba: Vec<u8>,
}

/// Where the picture's top-left corner goes in a square of side `edge`:
/// half the room left over on each axis, none when there is none.
pub open spec fn margin(edge: u32, size: u32) -> int {
    if edge > size {
        (edge - size) / 2
    } else {
        0
    }
}

/// Row `y` of the picture, when the picture has that many bytes.
pub open spec fn row_of(rgba: Seq<u8>, width: u32, y: int) -> Option<Seq<u8>> {
    if (y + 1) * width * 4 <= rgba.len() {
        Some(rgba.subrange(y * width * 4, (y + 1) * width * 4))
    } else {
        None
    }
}

/// Where row `y` lands in the square.
pub open spec fn row_at(width: u32, height: u32, edge: u32, y: int) -> int {
    ((margin(edge, height) + y) * edge + margin(edge, width)) * 4
}

/// `src` written over `buf` at `at`, when it fits there.
pub open spec fn put_at(buf: Seq<u8>, src: Seq<u8>, at: int) -> Seq<u8> {
    if 0 <= at && at + src.len() <= buf.len() {
        buf.subrange(0, at) + src + buf.subrange(at + src.len(), buf.len() as int)
    } else {
        buf
    }
}

/// The square after the picture's first `y` rows are written into it.
pub open spec fn painted(rgba: Seq<u8>, width: u32, height: u32, edge: u32, y: int) -> Seq<u8>
    decreases y,
{
    if y <= 0 {
        Seq::new((edge * edge * 4) as nat, |i: int| 0u8)
    } else {
        let before = painted(rgba, width, height, edge, y - 1);
        match row_of(rgba, width, y - 1) {
            Some(src) => put_at(before, src, row_at(width, height, edge, y - 1)),
            None => before,
        }
    }
}

proof fn lemma_painted_len(rgba: Seq<u8>, width: u32, height: u32, edge: u32, y: int)
    ensures
        painted(rgba, width, height, edge, y).len() == edge * edge * 4,
    decreases y,
{
    if y > 0 {
        lemma_painted_len(rgba, width, height, edge, y - 1);
    }
}

proof fn lemma_mul_mono(a: int, b: int, c: int)
    requires
        0 <= a <= b,
        0 <= c,
    ensures
        a * c <= b * c,
{
    assert(a * c <= b * c) by (nonlinear_arith)
        requires
            0 <= a <= b,
            0 <= c,
    ;
}

proof fn lemma_grow(a: int, b: int)
    requires
        0 <= a,
        1 <= b,
    ensures
        a <= a * b,
{
    assert(a <= a * b) by (nonlinear_arith)
        requires
            0 <= a,
            1 <= b,
    ;
}

/// Where row `y` of a picture `w` pixels wide ends, when the picture has
/// all of that row.
fn row_end(y: usize, w: usize, n: usize) -> (r: Option<usize>)
    ensures
        match r {
            Some(hi) => hi == (y + 1) * w * 4 && hi <= n,
            None => (y + 1) * w * 4 > n,
        },
{
    if w == 0 {
        return Some(0);
    }
    proof {
        lemma_grow(y as int + 1, w as int);
    }
    let a = match y.checked_add(1) {
        Some(v) => v,
        None => return None,
    };
    let b = match a.checked_mul(w) {
        Some(v) => v,
        None => return None,
    };
    let hi = match b.checked_mul(4) {
        Some(v) => v,
        None => return None,
    };
    if hi <= n {
        Some(hi)
    } else {
        None
    }
}

/// Where `len` bytes of row `y` start in the square, when they fit in it.
fn landing(y0: usize, y: usize, side: usize, x0: usize, len: usize, total: usize) -> (r: Option<usize>)
    ensures
        match r {
            Some(at) => at == ((y0 + y) * side + x0) * 4 && at + len <= total,
            None => ((y0 + y) * side + x0) * 4 + len > total,
        },
{
    let a = if side == 0 {
        0
    } else {
        proof {
            lemma_grow(y0 as int + y as int, side as int);
        }
        let row = match y0.checked_add(y) {
            Some(v) => v,
            None => return None,
        };
        match row.checked_mul(side) {
            Some(v) => v,
            None => return None,
        }
    };
    let b = match a.checked_add(x0) {
        Some(v) => v,
        None => return None,
    };
    let at = match b.checked_mul(4) {
        Some(v) => v,
        None => return None,
    };
    let end = match at.checked_add(len) {
        Some(v) => v,
        None => return None,
    };
    if end <= total {
        Some(at)
    } else {
        None
    }
}

/// `img` in the middle of a transparent `edge × edge` square, row by row:
/// a row the picture does not have, or one that would run past the
/// square, is left out.
pub fn centred(img: &Image, edge: u32) -> (r: Image)
    requires
        edge * edge * 4 <= usize::MAX,
    ensures
        r.width == edge,
        r.height == edge,
        r.rgba@ == painted(img.rgba@, img.width, img.height, edge, img.height as int),
{
    let side = edge as usize;
    proof {
        lemma_mul_mono(0, side as int, side as int);
        lemma_mul_mono(0, (side * side) as int, 4);
    }
    let total = side * side * 4;
    let mut rgba: Vec<u8> = Vec::new();
    while rgba.len() < total
        invariant
            total == edge * edge * 4,
            rgba@.len() <= total,
            forall|i: int| 0 <= i < rgba@.len() ==> rgba@[i] == 0u8,
        decreases total - rgba@.len(),
    {
        rgba.push(0);
    }
    assert(rgba@ =~= painted(img.rgba@, img.width, img.height, edge, 0));
    let w = img.width as usize;
    let h = img.height as usize;
    let x0 = if side > w { (side - w) / 2 } else { 0 };
    let y0 = if side > h { (side - h) / 2 } else { 0 };
    let n = img.rgba.len();
    let mut y: usize = 0;
    while y < h
        invariant
            y <= h == img.height,
            w == img.width,
            side == edge,
            n == img.rgba@.len(),
            x0 == margin(edge, img.width),
            y0 == margin(edge, img.height),
            total == edge * edge * 4,
            rgba@ == painted(img.rgba@, img.width, img.height, edge, y as int),
        decreases h - y,
    {
        proof {
            lemma_painted_len(img.rgba@, img.width, img.height, edge, y as int);
            lemma_mul_mono(y as int, y as int + 1, w as int);
            lemma_mul_mono(y as int * w, (y as int + 1) * w, 4);
        }
        if let Some(hi) = row_end(y, w, n) {
            let lo = y * w * 4;
            let len = hi - lo;
            let ghost at_i = row_at(img.width, img.height, edge, y as int);
            if let Some(at) = landing(y0, y, side, x0, len, total) {
                let ghost before = rgba@;
                let mut k: usize = 0;
                while k < len
                    invariant
                        k <= len,
                        lo + len == hi <= n == img.rgba@.len(),
                        at + len <= total == rgba@.len(),
                        rgba@.len() == before.len(),
                        forall|j: int| 0 <= j < at ==> #[trigger] rgba@[j] == before[j],
                        forall|j: int| at + len <= j < total ==> #[trigger] rgba@[j] == before[j],
                        forall|j: int| at <= j < at + k ==> #[trigger] rgba@[j] == img.rgba@[lo + (j - at)],
                        forall|j: int| at + k <= j < at + len ==> #[trigger] rgba@[j] == before[j],
                    decreases len - k,
                {
                    rgba.set(at + k, img.rgba[lo + k]);
                    k = k + 1;
                }
                assert(rgba@ =~= put_at(before, img.rgba@.subrange(lo as int, hi as int), at as int));
            } else {
                assert(put_at(rgba@, img.rgba@.subrange(lo as int, hi as int), at_i) == rgba@);
            }
        }
        y = y + 1;
    }
    Image { width: edge, height: edge, rgba }
}

proof fn lemma_place(e: int, x: int, yy: int, c: int, ry: int, x0: int, w: int)
    requires
        0 <= x < e,
        0 <= yy,
        0 <= c < 4,
        0 <= x0,
        0 <= w,
        x0 + w <= e,
        0 <= ry,
    ensures
        yy < ry ==> (yy * e + x) * 4 + c < (ry * e + x0) * 4,
        yy > ry ==> (yy * e + x) * 4 + c >= (ry * e + x0) * 4 + 4 * w,
        yy == ry && x < x0 ==> (yy * e + x) * 4 + c < (ry * e + x0) * 4,
        yy == ry && x >= x0 + w ==> (yy * e + x) * 4 + c >= (ry * e + x0) * 4 + 4 * w,
        yy == ry && x0 <= x < x0 + w ==> (yy * e + x) * 4 + c - (ry * e + x0) * 4 == (x - x0) * 4
            + c,
{
    if yy < ry {
        assert((yy * e + x) * 4 + c < (ry * e + x0) * 4) by (nonlinear_arith)
            requires
                0 <= x < e,
                0 <= yy < ry,
                0 <= c < 4,
                0 <= x0,
        ;
    }
    if yy > ry {
        assert(yy * e >= ry * e + e) by (nonlinear_arith)
            requires
                0 <= ry < yy,
                0 <= e,
        ;
    }
}

proof fn lemma_row_fits(e: int, ry: int, x0: int, w: int)
    requires
        0 <= ry < e,
        0 <= x0,
        0 <= w,
        x0 + w <= e,
    ensures
        0 <= (ry * e + x0) * 4,
        (ry * e + x0) * 4 + 4 * w <= e * e * 4,
{
    assert(0 <= (ry * e + x0) * 4 && (ry * e + x0) * 4 + 4 * w <= e * e * 4) by (nonlinear_arith)
        requires
            0 <= ry < e,
            0 <= x0,
            0 <= w,
            x0 + w <= e,
    ;
}

proof fn lemma_src_index(y: int, w: int, dx: int, c: int)
    ensures
        y * w * 4 + (dx * 4 + c) == (y * w + dx) * 4 + c,
{
    assert(y * w * 4 + (dx * 4 + c) == (y * w + dx) * 4 + c) by (nonlinear_arith);
}

proof fn lemma_rows_present(y: int, w: int, h: int)
    requires
        0 <= y < h,
        0 <= w,
    ensures
        0 <= y * w * 4,
        (y + 1) * w * 4 <= w * h * 4,
        (y + 1) * w * 4 - y * w * 4 == 4 * w,
{
    assert(0 <= y * w * 4 && (y + 1) * w * 4 <= w * h * 4 && (y + 1) * w * 4 - y * w * 4 == 4 * w)
        by (nonlinear_arith)
        requires
            0 <= y < h,
            0 <= w,
    ;
}

/// The pixel `(x, yy)`'s byte `c` of a square after `y` rows of a whole
/// picture went in: the picture's, inside the rows written so far and
/// the columns it spans, and transparent everywhere else.
pub open spec fn painted_byte(rgba: Seq<u8>, w: u32, h: u32, edge: u32, y: int, x: int, yy: int, c: int) -> u8 {
    let x0 = margin(edge, w);
    let y0 = margin(edge, h);
    if y0 <= yy < y0 + y && x0 <= x < x0 + w {
        rgba[((yy - y0) * w + (x - x0)) * 4 + c]
    } else {
        0u8
    }
}

proof fn lemma_painted_rows(rgba: Seq<u8>, w: u32, h: u32, edge: u32, y: int)
    requires
        w <= edge,
        h <= edge,
        rgba.len() == w * h * 4,
        0 <= y <= h,
    ensures
        forall|x: int, yy: int, c: int|
            0 <= x < edge && 0 <= yy < edge && 0 <= c < 4 ==> #[trigger] painted(rgba, w, h, edge, y)[(yy
                * edge + x) * 4 + c] == painted_byte(rgba, w, h, edge, y, x, yy, c),
    decreases y,
{
    let e = edge as int;
    let x0 = margin(edge, w);
    let y0 = margin(edge, h);
    lemma_painted_len(rgba, w, h, edge, y);
    if y == 0 {
        assert forall|x: int, yy: int, c: int|
            0 <= x < edge && 0 <= yy < edge && 0 <= c < 4 implies #[trigger] painted(rgba, w, h, edge, y)[(yy
                * edge + x) * 4 + c] == painted_byte(rgba, w, h, edge, y, x, yy, c) by {
            lemma_place(e, x, yy, c, e, 0, 0);
            lemma_row_fits(e, yy, x, 1);
        }
    } else {
        let p = y - 1;
        lemma_painted_rows(rgba, w, h, edge, p);
        lemma_painted_len(rgba, w, h, edge, p);
        lemma_rows_present(p, w as int, h as int);
        let src = rgba.subrange(p * w * 4, (p + 1) * w * 4);
        assert(row_of(rgba, w, p) == Some(src));
        let ry = y0 + p;
        let at = row_at(w, h, edge, p);
        assert(at == (ry * e + x0) * 4);
        lemma_row_fits(e, ry, x0, w as int);
        let before = painted(rgba, w, h, edge, p);
        let after = painted(rgba, w, h, edge, y);
        assert(after == put_at(before, src, at));
        assert forall|x: int, yy: int, c: int|
            0 <= x < edge && 0 <= yy < edge && 0 <= c < 4 implies #[trigger] painted(rgba, w, h, edge, y)[(yy
                * edge + x) * 4 + c] == painted_byte(rgba, w, h, edge, y, x, yy, c) by {
            let q = (yy * e + x) * 4 + c;
            lemma_place(e, x, yy, c, ry, x0, w as int);
            lemma_row_fits(e, yy, x, 1);
            assert(before[q] == painted_byte(rgba, w, h, edge, p, x, yy, c));
            if yy == ry && x0 <= x < x0 + w {
                lemma_src_index(p, w as int, x - x0, c);
                assert(after[q] == src[q - at]);
            } else {
                assert(after[q] == before[q]);
            }
        }
    }
}

/// A whole picture no larger than the square ends up in its middle, as it
/// was: every byte of it where it belongs, and nothing anywhere else.
pub proof fn lemma_centred_places_the_picture(
    rgba: Seq<u8>,
    w: u32,
    h: u32,
    edge: u32,
    x: int,
    yy: int,
    c: int,
)
    requires
        w <= edge,
        h <= edge,
        rgba.len() == w * h * 4,
        0 <= x < edge,
        0 <= yy < edge,
        0 <= c < 4,
    ensures
        painted(rgba, w, h, edge, h as int)[(yy * edge + x) * 4 + c] == painted_byte(
            rgba,
            w,
            h,
            edge,
            h as int,
            x,
            yy,
            c,
        ),
{
    lemma_painted_rows(rgba, w, h, edge, h as int);
}

/// The size a picture is drawn at to fit a square of side `edge` without
/// being stretched: its longer side becomes `edge`, the other keeps the
/// proportion, rounded down but never to nothing.
pub open spec fn fit_side(side: u32, long: u32, edge: u32) -> u32 {
    let v = (side * edge) / (long as int);
    if v < 1 {
        1
    } else {
        v as u32
    }
}

/// [`fit_side`] for both sides; a picture with no pixels has no size to
/// keep, and is refused.
pub fn fitted(width: u32, height: u32, edge: u32) -> (r: Result<(u32, u32), String>)
    ensures
        match r {
            Ok((w, h)) => {
                let long = if width >= height { width } else { height };
                long > 0 && w == fit_side(width, long, edge) && h == fit_side(height, long, edge)
            },
            Err(e) => width == 0 && height == 0 && e@ == "the icon has no pixels"@,
        },
{
    let long = if width >= height { width } else { height };
    if long == 0 {
        return Err("the icon has no pixels".to_string());
    }
    let w = scaled(width, long, edge);
    let h = scaled(height, long, edge);
    Ok((w, h))
}

fn scaled(side: u32, long: u32, edge: u32) -> (r: u32)
    requires
        0 < long,
        side <= long,
    ensures
        r == fit_side(side, long, edge),
{
    let a = side as u64;
    let b = edge as u64;
    assert(a * b <= 0xffff_ffff * 0xffff_ffff) by (nonlinear_arith)
        requires
            a <= 0xffff_ffff,
            b <= 0xffff_ffff,
    ;
    let p = a * b;
    assert(p <= long * edge) by (nonlinear_arith)
        requires
            p == side * edge,
            side <= long,
    ;
    assert(p / (long as u64) <= edge) by (nonlinear_arith)
        requires
            p <= long * edge,
            0 < long,
    ;
    let v = p / (long as u64);
    if v < 1 {
        1
    } else {
        v as u32
    }
}


/// What `png` writes for an eight-bit RGBA picture of `width × height`
/// whose pixels are `rgba`, with its default filter and compression.
pub uninterp spec fn png_rgba8(width: u32, height: u32, rgba: Seq<u8>) -> Seq<u8>;

/// The first twenty-four bytes of every PNG of `width × height`: the
/// signature, then the header chunk's length and type, then the two sides.
pub open spec fn png_head(width: u32, height: u32) -> Seq<u8> {
    seq![137u8, 80u8, 78u8, 71u8, 13u8, 10u8, 26u8, 10u8, 0u8, 0u8, 0u8, 13u8, 73u8, 72u8, 68u8, 82u8]
        + be32(width) + be32(height)
}

/// Whether `b` begins as a PNG of `width × height` does.
pub open spec fn is_png_of(b: Seq<u8>, width: u32, height: u32) -> bool {
    b.len() >= 24 && b.subrange(0, 24) == png_head(width, height)
}

/// `png::Encoder` on an eight-bit RGBA picture, written into memory.
///
/// Claimed of it, as the encoder's source shows: what it writes is
/// [`png_rgba8`] of its arguments, and begins with the signature and a
/// header naming the two sides; a zero side, or pixels that are not four
/// bytes for each of `width × height`, is refused, and nothing else is,
/// since writing into memory cannot fail. An error comes back as the
/// encoder's own description of it.
#[verifier::external_body]
fn encode_png(width: u32, height: u32, rgba: &[u8]) -> (r: Result<Vec<u8>, String>)
    requires
        width * height * 4 < usize::MAX,
    ensures
        r matches Ok(b) ==> b@ == png_rgba8(width, height, rgba@) && is_png_of(b@, width, height),
        r is Ok <==> (width > 0 && height > 0 && rgba@.len() == width * height * 4),
{
    let mut out = Vec::new();
    let mut enc = png::Encoder::new(&mut out, width, height);
    enc.set_color(png::ColorType::Rgba);
    enc.set_depth(png::BitDepth::Eight);
    let mut w = enc.write_header().map_err(|e| e.to_string())?;
    w.write_image_data(rgba).map_err(|e| e.to_string())?;
    w.finish().map_err(|e| e.to_string())?;
    Ok(out)
}

/// The text a refused encoding begins with.
pub open spec fn write_error(e: Seq<char>) -> bool {
    let lead = "cannot write the icon: "@;
    e.len() >= lead.len() && e.subrange(0, lead.len() as int) == lead
}

/// The pixels a picture is written with at side `edge`: as they are when
/// it is already that size, else in the middle of a transparent square.
pub open spec fn squared(img: Image, edge: u32) -> Seq<u8> {
    if img.width == edge && img.height == edge {
        img.rgba@
    } else {
        painted(img.rgba@, img.width, img.height, edge, img.height as int)
    }
}

/// Whether a picture of `width × height` is at the size [`fitted`] gives
/// it for `edge`: its longer side is the square's, the other in proportion.
/// The publisher's picture is drawn at that size before it is squared.
pub open spec fn at_fitted_size(width: u32, height: u32, edge: u32) -> bool {
    let long = if width >= height {
        width
    } else {
        height
    };
    long > 0 && fit_side(width, long, edge) == width && fit_side(height, long, edge) == height
}

/// What [`square`] may be given for `edge`: a picture already `edge`
/// square, or one at its fitted size.
pub open spec fn ready_for(img: Image, edge: u32) -> bool {
    (img.width == edge && img.height == edge) || at_fitted_size(img.width, img.height, edge)
}

/// When [`square`] succeeds: the square has a side, and a picture that is
/// already that size has all its pixels.
pub open spec fn squares(img: Image, edge: u32) -> bool {
    edge > 0 && (img.width == edge && img.height == edge ==> img.rgba@.len() == edge * edge * 4)
}

/// `img` written out as a PNG of `edge × edge`: every container declares
/// the size of the picture it holds, and a picture whose real size is not
/// the declared one is an icon the platform draws wrong or refuses.
///
/// `img` is the publisher's picture already drawn at the size [`fitted`]
/// gives for `edge` (drawing it there is the caller's), or at `edge`
/// itself; one that is not square is placed in the middle of a transparent
/// square rather than stretched.
pub fn square(img: &Image, edge: u32) -> (r: Result<Vec<u8>, String>)
    requires
        edge * edge * 4 < usize::MAX,
        ready_for(*img, edge),
    ensures
        match r {
            Ok(b) => b@ == png_rgba8(edge, edge, squared(*img, edge)) && is_png_of(b@, edge, edge),
            Err(e) => write_error(e@),
        },
        r is Ok <==> squares(*img, edge),
{
    let done = if img.width == edge && img.height == edge {
        encode_png(edge, edge, img.rgba.as_slice())
    } else {
        let sq = centred(img, edge);
        proof {
            lemma_painted_len(img.rgba@, img.width, img.height, edge, img.height as int);
        }
        encode_png(edge, edge, sq.rgba.as_slice())
    };
    match done {
        Ok(b) => Ok(b),
        Err(why) => {
            let mut msg: Vec<char> = Vec::new();
            push_str(&mut msg, "cannot write the icon: ");
            push_str(&mut msg, why.as_str());
            proof {
                reveal_strlit("cannot write the icon: ");
                assert(msg@.subrange(0, 23) =~= "cannot write the icon: "@);
            }
            Err(from_chars(msg))
        },
    }
}

/// The side of the `.icns` slot `i`.
pub open spec fn icns_edge(i: int) -> u32 {
    if i == 0 {
        128
    } else if i == 1 {
        256
    } else {
        512
    }
}

fn icns_edge_of(i: usize) -> (e: u32)
    ensures
        e == icns_edge(i as int),
{
    if i == 0 {
        128
    } else if i == 1 {
        256
    } else {
        512
    }
}

/// The PNGs an `.icns` of `pictures` holds, one for each slot.
pub open spec fn icns_pngs(pictures: Seq<Image>) -> Seq<Seq<u8>> {
    Seq::new(3, |i: int| png_rgba8(icns_edge(i), icns_edge(i), squared(pictures[i], icns_edge(i))))
}

/// The PNGs an `.ico` of `pictures` holds, one for each entry.
pub open spec fn ico_pngs(pictures: Seq<Image>) -> Seq<Seq<u8>> {
    Seq::new(4, |i: int| png_rgba8(ico_edge(i), ico_edge(i), squared(pictures[i], ico_edge(i))))
}

/// An `.icns`, the container macOS reads: `pictures[i]` is the publisher's
/// picture drawn for the slot of side [`icns_edge`]`(i)`, and each goes in
/// as a PNG of exactly that side, so that every chunk holds what it says.
/// It is written whenever every picture can be squared and the lengths fit.
pub fn icns(pictures: &Vec<Image>) -> (r: Result<Vec<u8>, String>)
    requires
        pictures@.len() == 3,
        forall|i: int| 0 <= i < 3 ==> ready_for(#[trigger] pictures@[i], icns_edge(i)),
    ensures
        r is Ok <==> (forall|i: int| 0 <= i < 3 ==> squares(#[trigger] pictures@[i], icns_edge(i)))
            && icns_fits(icns_pngs(pictures@)),
        match r {
            Ok(out) => {
                let qs = icns_pngs(pictures@);
                &&& icns_fits(qs)
                &&& out@ == icns_file(qs)
                &&& forall|i: int| 0 <= i < 3 ==> is_png_of(#[trigger] qs[i], icns_edge(i), icns_edge(i))
            },
            Err(e) => e@ == too_large() || write_error(e@),
        },
{
    let mut pngs: Vec<Vec<u8>> = Vec::new();
    let mut k: usize = 0;
    while k < 3
        invariant
            pictures@.len() == 3,
            forall|i: int| 0 <= i < 3 ==> ready_for(#[trigger] pictures@[i], icns_edge(i)),
            k <= 3,
            pngs@.len() == k,
            forall|i: int| 0 <= i < k ==> squares(#[trigger] pictures@[i], icns_edge(i)),
            forall|i: int| 0 <= i < k ==> (#[trigger] pngs@[i])@ == icns_pngs(pictures@)[i],
            forall|i: int| 0 <= i < k ==> is_png_of((#[trigger] pngs@[i])@, icns_edge(i), icns_edge(i)),
        decreases 3 - k,
    {
        let edge = icns_edge_of(k);
        match square(&pictures[k], edge) {
            Ok(b) => pngs.push(b),
            Err(e) => return Err(e),
        }
        k = k + 1;
    }
    assert(pngs@.map_values(|p: Vec<u8>| p@) =~= icns_pngs(pictures@));
    icns_container(&pngs)
}

/// An `.ico`, the container Windows reads: `pictures[i]` is the
/// publisher's picture drawn for the entry of side [`ico_edge`]`(i)`, and
/// each goes in as a PNG of exactly that side. It is written whenever
/// every picture can be squared and each PNG's length fits its field.
pub fn ico(pictures: &Vec<Image>) -> (r: Result<Vec<u8>, String>)
    requires
        pictures@.len() == 4,
        forall|i: int| 0 <= i < 4 ==> ready_for(#[trigger] pictures@[i], ico_edge(i)),
    ensures
        r is Ok <==> (forall|i: int| 0 <= i < 4 ==> squares(#[trigger] pictures@[i], ico_edge(i)))
            && (forall|i: int| 0 <= i < 4 ==> (#[trigger] ico_pngs(pictures@)[i]).len() <= u32::MAX),
        match r {
            Ok(out) => {
                let qs = ico_pngs(pictures@);
                &&& forall|i: int| 0 <= i < 4 ==> (#[trigger] qs[i]).len() <= u32::MAX
                &&& out@ == ico_file(qs)
                &&& forall|i: int| 0 <= i < 4 ==> is_png_of(#[trigger] qs[i], ico_edge(i), ico_edge(i))
            },
            Err(e) => e@ == too_large() || write_error(e@),
        },
{
    let mut pngs: Vec<Vec<u8>> = Vec::new();
    let mut k: usize = 0;
    while k < 4
        invariant
            pictures@.len() == 4,
            forall|i: int| 0 <= i < 4 ==> ready_for(#[trigger] pictures@[i], ico_edge(i)),
            k <= 4,
            pngs@.len() == k,
            forall|i: int| 0 <= i < k ==> squares(#[trigger] pictures@[i], ico_edge(i)),
            forall|i: int| 0 <= i < k ==> (#[trigger] pngs@[i])@ == ico_pngs(pictures@)[i],
            forall|i: int| 0 <= i < k ==> is_png_of((#[trigger] pngs@[i])@, ico_edge(i), ico_edge(i)),
        decreases 4 - k,
    {
        let edge = ico_edge_of(k);
        match square(&pictures[k], edge) {
            Ok(b) => pngs.push(b),
            Err(e) => return Err(e),
        }
        k = k + 1;
    }
    assert(pngs@.map_values(|p: Vec<u8>| p@) =~= ico_pngs(pictures@));
    ico_container(&pngs)
}

} // verus!
