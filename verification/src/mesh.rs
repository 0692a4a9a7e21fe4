//! The geometry container a `scene` names, and the checks that make it safe
//! to hand to a GPU.
//!
//! ```text
//! "EUIM" version:u8=1  flags:u8  vertex_count:u32le  index_count:u32le
//!   positions : vertex_count × 3 × f32le
//!   normals   : vertex_count × 3 × f32le   (flags bit 0)
//!   uvs       : vertex_count × 2 × f32le   (flags bit 1)
//!   indices   : index_count × u32le
//! ```
//!
//! A coordinate is carried as the bits of its `f32`. The check this module
//! exists for is the last one: every index names a vertex that is there,
//! which no driver checks.

use vstd::prelude::*;

use crate::text::{dec, from_chars, push_dec, push_str};
use crate::wire::{
    at, lemma_at_split, lemma_read_u32, enc_list, enc_u32, enc_u32_fn, le32, lemma_enc_list_push,
    wire_count, wire_len, W,
};

verus! {

/// The only version there is.
pub const VERSION: u8 = 1;

/// Normals are present.
pub const HAS_NORMALS: u8 = 1;

/// Texture coordinates are present.
pub const HAS_UVS: u8 = 2;

/// Vertices a mesh may have.
pub const MAX_VERTICES: u32 = 65536;

/// Indices a mesh may have: `MAX_VERTICES` triangles' worth.
pub const MAX_INDICES: u32 = 196608;

/// The bits of `1.0f32`, the `z` of the normal a mesh without normals gets.
pub const ONE_BITS: u32 = 0x3f80_0000;

/// Why a mesh was refused.
#[derive(Debug, PartialEq, Eq, Structural)]
pub enum MeshError {
    /// Not a mesh at all, or a version this client does not know.
    Magic,
    /// Flags outside the two that are defined.
    Flags(u8),
    /// More vertices or indices than the caps.
    TooBig,
    /// A count of indices that is not whole triangles.
    NotTriangles(u32),
    /// The body is not the length the header says.
    Truncated,
    /// A coordinate that is not a finite number.
    NotFinite,
    /// An index past the end of the vertices.
    Index {
        /// The index that was out of range.
        at: u32,
        /// How many vertices there actually are.
        of: u32,
    },
}

/// One vertex: position, normal and texture coordinate, as `f32` bits.
#[derive(Debug, Clone, Copy, PartialEq, Eq)]
pub struct Vertex {
    pub pos: [u32; 3],
    pub normal: [u32; 3],
    pub uv: [u32; 2],
}

impl View for Vertex {
    type V = (Seq<u32>, Seq<u32>, Seq<u32>);

    open spec fn view(&self) -> (Seq<u32>, Seq<u32>, Seq<u32>) {
        (self.pos@, self.normal@, self.uv@)
    }
}

/// A mesh, checked.
#[derive(Debug, PartialEq, Eq)]
pub struct Mesh {
    /// One per vertex.
    pub vertices: Vec<Vertex>,
    /// Three per triangle, every one of them inside `vertices`.
    pub indices: Vec<u32>,
}

pub struct MeshModel {
    pub vertices: Seq<(Seq<u32>, Seq<u32>, Seq<u32>)>,
    pub indices: Seq<u32>,
}

impl View for Mesh {
    type V = MeshModel;

    open spec fn view(&self) -> MeshModel {
        MeshModel { vertices: self.vertices@.map_values(|v: Vertex| v@), indices: self.indices@ }
    }
}

/// `"EUIM"`.
pub open spec fn magic() -> Seq<u8> {
    seq![69u8, 85u8, 73u8, 77u8]
}

/// Whether these bytes claim to be a mesh, by their first four alone.
pub fn looks_like_mesh(bytes: &[u8]) -> (r: bool)
    ensures
        r == (bytes@.len() >= 4 && bytes@.take(4) == magic()),
{
    let r = bytes.len() >= 4 && bytes[0] == 69 && bytes[1] == 85 && bytes[2] == 73 && bytes[3]
        == 77;
    if bytes.len() >= 4 {
        assert(r == (bytes@.take(4) =~= magic()));
    }
    r
}

/// An `f32` that is a number: its exponent is not all ones.
pub open spec fn finite(bits: u32) -> bool {
    (bits / 8388608) % 256 != 255
}

pub open spec fn normals_on(flags: u8) -> bool {
    flags & 1 != 0
}

pub open spec fn uvs_on(flags: u8) -> bool {
    flags & 2 != 0
}

/// How many `f32`s the vertices take, all three arrays together.
pub open spec fn float_count(flags: u8, vc: int) -> int {
    3 * vc + (if normals_on(flags) {
        3 * vc
    } else {
        0
    }) + (if uvs_on(flags) {
        2 * vc
    } else {
        0
    })
}

pub open spec fn normals_at(vc: int) -> int {
    14 + 12 * vc
}

pub open spec fn uvs_at(flags: u8, vc: int) -> int {
    normals_at(vc) + if normals_on(flags) {
        12 * vc
    } else {
        0
    }
}

pub open spec fn indices_at(flags: u8, vc: int) -> int {
    uvs_at(flags, vc) + if uvs_on(flags) {
        8 * vc
    } else {
        0
    }
}

/// Vertex `i` of a mesh that passed its checks.
pub open spec fn vertex_at(b: Seq<u8>, flags: u8, vc: int, i: int) -> (Seq<u32>, Seq<u32>, Seq<u32>) {
    let p = 14 + 12 * i;
    let n = normals_at(vc) + 12 * i;
    let t = uvs_at(flags, vc) + 8 * i;
    (
        seq![le32(b, p), le32(b, p + 4), le32(b, p + 8)],
        if normals_on(flags) {
            seq![le32(b, n), le32(b, n + 4), le32(b, n + 8)]
        } else {
            seq![0u32, 0u32, ONE_BITS]
        },
        if uvs_on(flags) {
            seq![le32(b, t), le32(b, t + 4)]
        } else {
            seq![0u32, 0u32]
        },
    )
}

/// The first of the first `n` indices that names no vertex.
pub open spec fn first_bad(b: Seq<u8>, at: int, vc: u32, n: int) -> Option<u32>
    decreases n,
{
    if n <= 0 {
        None
    } else {
        match first_bad(b, at, vc, n - 1) {
            Some(x) => Some(x),
            None => if le32(b, at + 4 * (n - 1)) >= vc {
                Some(le32(b, at + 4 * (n - 1)))
            } else {
                None
            },
        }
    }
}

/// What the first fourteen bytes say: the flags and the two counts, or
/// the first check they fail, in reading order.
pub open spec fn header(b: Seq<u8>) -> Result<(u8, u32, u32), MeshError> {
    if !(b.len() >= 4 && b.take(4) == magic()) || b.len() < 5 || b[4] != VERSION || b.len() < 6 {
        Err(MeshError::Magic)
    } else if b[5] & 0xfc != 0 {
        Err(MeshError::Flags(b[5]))
    } else if b.len() < 14 {
        Err(MeshError::Truncated)
    } else {
        let flags = b[5];
        let vc = le32(b, 6);
        let ic = le32(b, 10);
        if vc > MAX_VERTICES || ic > MAX_INDICES {
            Err(MeshError::TooBig)
        } else if ic % 3 != 0 {
            Err(MeshError::NotTriangles(ic))
        } else if b.len() != 14 + 4 * float_count(flags, vc as int) + 4 * ic {
            Err(MeshError::Truncated)
        } else {
            Ok((flags, vc, ic))
        }
    }
}

/// The body's verdict once the header holds: a coordinate that is not a
/// number, then an index past the vertices, or the mesh.
pub open spec fn body(b: Seq<u8>, flags: u8, vc: u32, ic: u32) -> Result<MeshModel, MeshError> {
    if exists|k: int|
        0 <= k < float_count(flags, vc as int) && !finite(#[trigger] le32(b, 14 + 4 * k)) {
        Err(MeshError::NotFinite)
    } else {
        match first_bad(b, indices_at(flags, vc as int), vc, ic as int) {
            Some(x) => Err(MeshError::Index { at: x, of: vc }),
            None => Ok(
                MeshModel {
                    vertices: Seq::new(vc as nat, |i: int| vertex_at(b, flags, vc as int, i)),
                    indices: Seq::new(
                        ic as nat,
                        |k: int| le32(b, indices_at(flags, vc as int) + 4 * k),
                    ),
                },
            ),
        }
    }
}

/// What decoding `b` gives.
pub open spec fn decoded(b: Seq<u8>) -> Result<MeshModel, MeshError> {
    match header(b) {
        Ok((flags, vc, ic)) => body(b, flags, vc, ic),
        Err(e) => Err(e),
    }
}

fn read_le32(b: &[u8], at: usize) -> (r: u32)
    requires
        at + 4 <= b@.len(),
    ensures
        r == le32(b@, at as int),
{
    b[at] as u32 + (b[at + 1] as u32) * 256 + (b[at + 2] as u32) * 65536 + (b[at + 3] as u32)
        * 16777216
}

fn read_header(bytes: &[u8]) -> (r: Result<(u8, u32, u32), MeshError>)
    ensures
        r == header(bytes@),
{
    let len = bytes.len();
    if !looks_like_mesh(bytes) || len < 5 || bytes[4] != VERSION || len < 6 {
        return Err(MeshError::Magic);
    }
    let flags = bytes[5];
    if flags & 0xfc != 0 {
        return Err(MeshError::Flags(flags));
    }
    if len < 14 {
        return Err(MeshError::Truncated);
    }
    let vc = read_le32(bytes, 6);
    let ic = read_le32(bytes, 10);
    if vc > MAX_VERTICES || ic > MAX_INDICES {
        return Err(MeshError::TooBig);
    }
    if ic % 3 != 0 {
        return Err(MeshError::NotTriangles(ic));
    }
    let v = vc as usize;
    let floats = 3 * v + (if flags & 1 != 0 {
        3 * v
    } else {
        0
    }) + (if flags & 2 != 0 {
        2 * v
    } else {
        0
    });
    if len != 14 + 4 * floats + 4 * (ic as usize) {
        return Err(MeshError::Truncated);
    }
    Ok((flags, vc, ic))
}

/// Decode and check. Nothing partial comes back: a mesh is whole or it is
/// an error naming the rule that refused it.
pub fn decode(bytes: &[u8]) -> (r: Result<Mesh, MeshError>)
    ensures
        match decoded(bytes@) {
            Ok(m) => r matches Ok(x) && x@ == m,
            Err(e) => r matches Err(x) && x == e,
        },
{
    let (flags, vc, ic) = read_header(bytes)?;
    read_body(bytes, flags, vc, ic)
}

fn read_body(bytes: &[u8], flags: u8, vc: u32, ic: u32) -> (r: Result<Mesh, MeshError>)
    requires
        header(bytes@) == Ok::<(u8, u32, u32), MeshError>((flags, vc, ic)),
    ensures
        match body(bytes@, flags, vc, ic) {
            Ok(m) => r matches Ok(x) && x@ == m,
            Err(e) => r matches Err(x) && x == e,
        },
{
    let len = bytes.len();
    let n_on = flags & 1 != 0;
    let t_on = flags & 2 != 0;
    let v = vc as usize;
    let floats = 3 * v + (if n_on {
        3 * v
    } else {
        0
    }) + (if t_on {
        2 * v
    } else {
        0
    });
    let ghost b = bytes@;
    let mut k: usize = 0;
    while k < floats
        invariant
            b == bytes@,
            len == b.len(),
            len == 14 + 4 * floats + 4 * ic,
            floats == float_count(flags, vc as int),
            k <= floats,
            forall|j: int| 0 <= j < k ==> finite(#[trigger] le32(b, 14 + 4 * j)),
        decreases floats - k,
    {
        let w = read_le32(bytes, 14 + 4 * k);
        if (w / 8388608) % 256 == 255 {
            assert(!finite(le32(b, 14 + 4 * k)));
            return Err(MeshError::NotFinite);
        }
        k = k + 1;
    }
    let na = 14 + 12 * v;
    let ua = na + (if n_on {
        12 * v
    } else {
        0
    });
    let ia = ua + (if t_on {
        8 * v
    } else {
        0
    });
    let mut vertices: Vec<Vertex> = Vec::new();
    let mut i: usize = 0;
    while i < v
        invariant
            b == bytes@,
            len == b.len(),
            len == 14 + 4 * floats + 4 * ic,
            v == vc,
            vc <= MAX_VERTICES,
            n_on == normals_on(flags),
            t_on == uvs_on(flags),
            floats == float_count(flags, vc as int),
            na == normals_at(vc as int),
            ua == uvs_at(flags, vc as int),
            ia == indices_at(flags, vc as int),
            ia == 14 + 4 * floats,
            forall|j: int| 0 <= j < floats ==> finite(#[trigger] le32(b, 14 + 4 * j)),
            i <= v,
            vertices@.len() == i,
            forall|j: int|
                0 <= j < i ==> (#[trigger] vertices@[j])@ == vertex_at(b, flags, vc as int, j),
        decreases v - i,
    {
        let p = 14 + 12 * i;
        let pos = [read_le32(bytes, p), read_le32(bytes, p + 4), read_le32(bytes, p + 8)];
        let normal = if n_on {
            let q = na + 12 * i;
            [read_le32(bytes, q), read_le32(bytes, q + 4), read_le32(bytes, q + 8)]
        } else {
            [0u32, 0u32, ONE_BITS]
        };
        let uv = if t_on {
            let q = ua + 8 * i;
            [read_le32(bytes, q), read_le32(bytes, q + 4)]
        } else {
            [0u32, 0u32]
        };
        let x = Vertex { pos, normal, uv };
        assert(x@.0 =~= vertex_at(b, flags, vc as int, i as int).0);
        assert(x@.1 =~= vertex_at(b, flags, vc as int, i as int).1);
        assert(x@.2 =~= vertex_at(b, flags, vc as int, i as int).2);
        vertices.push(x);
        i = i + 1;
    }
    let n_idx = ic as usize;
    let mut indices: Vec<u32> = Vec::new();
    let mut k: usize = 0;
    while k < n_idx
        invariant
            b == bytes@,
            len == b.len(),
            ia + 4 * n_idx == len,
            ia == indices_at(flags, vc as int),
            floats == float_count(flags, vc as int),
            forall|j: int| 0 <= j < floats ==> finite(#[trigger] le32(b, 14 + 4 * j)),
            n_idx == ic,
            k <= n_idx,
            indices@.len() == k,
            first_bad(b, ia as int, vc, k as int) is None,
            forall|j: int| 0 <= j < k ==> #[trigger] indices@[j] == le32(b, ia + 4 * j),
        decreases n_idx - k,
    {
        let x = read_le32(bytes, ia + 4 * k);
        if x >= vc {
            assert(first_bad(b, ia as int, vc, k + 1) == Some(x));
            proof {
                lemma_first_bad_stays(b, ia as int, vc, k + 1, n_idx as int);
            }
            return Err(MeshError::Index { at: x, of: vc });
        }
        indices.push(x);
        k = k + 1;
    }
    let m = Mesh { vertices, indices };
    assert(m@.vertices =~= Seq::new(vc as nat, |i: int| vertex_at(b, flags, vc as int, i)));
    assert(m@.indices =~= Seq::new(ic as nat, |k: int| le32(b, ia + 4 * k)));
    Ok(m)
}

proof fn lemma_first_bad_stays(b: Seq<u8>, at: int, vc: u32, k: int, n: int)
    requires
        0 <= k <= n,
        first_bad(b, at, vc, k) is Some,
    ensures
        first_bad(b, at, vc, n) == first_bad(b, at, vc, k),
    decreases n - k,
{
    if k < n {
        lemma_first_bad_stays(b, at, vc, k, n - 1);
    }
}

/// A byte's lower-case hex digit.
pub open spec fn hex_char(d: u8) -> char {
    if d < 10 {
        ((d + 48) as u32) as char
    } else {
        ((d + 87) as u32) as char
    }
}

pub open spec fn mesh_error_text(e: MeshError) -> Seq<char> {
    match e {
        MeshError::Magic => "not an EUI mesh"@,
        MeshError::Flags(v) => "mesh flags 0x"@ + seq![hex_char(v / 16), hex_char(v % 16)]
            + " are not defined"@,
        MeshError::TooBig => "mesh is over the vertex or index cap"@,
        MeshError::NotTriangles(n) => dec(n as nat) + " indices is not whole triangles"@,
        MeshError::Truncated => "mesh is shorter than its header says"@,
        MeshError::NotFinite => "mesh has a coordinate that is not a finite number"@,
        MeshError::Index { at, of } => "mesh index "@ + dec(at as nat) + " is past its "@ + dec(
            of as nat,
        ) + " vertices"@,
    }
}

fn hex_digit(d: u8) -> (c: char)
    requires
        d < 16,
    ensures
        c == hex_char(d),
{
    if d < 10 {
        (d + 48) as char
    } else {
        (d + 87) as char
    }
}

impl MeshError {
    /// The rule that refused the mesh, as a sentence.
    pub fn message(&self) -> (r: String)
        ensures
            r@ == mesh_error_text(*self),
    {
        let mut v: Vec<char> = Vec::new();
        match self {
            MeshError::Magic => push_str(&mut v, "not an EUI mesh"),
            MeshError::Flags(f) => {
                push_str(&mut v, "mesh flags 0x");
                v.push(hex_digit(*f / 16));
                v.push(hex_digit(*f % 16));
                push_str(&mut v, " are not defined");
            },
            MeshError::TooBig => push_str(&mut v, "mesh is over the vertex or index cap"),
            MeshError::NotTriangles(n) => {
                push_dec(&mut v, *n as u64);
                push_str(&mut v, " indices is not whole triangles");
            },
            MeshError::Truncated => push_str(&mut v, "mesh is shorter than its header says"),
            MeshError::NotFinite => push_str(&mut v, "mesh has a coordinate that is not a finite number"),
            MeshError::Index { at, of } => {
                push_str(&mut v, "mesh index ");
                push_dec(&mut v, *at as u64);
                push_str(&mut v, " is past its ");
                push_dec(&mut v, *of as u64);
                push_str(&mut v, " vertices");
            },
        }
        assert(v@ =~= mesh_error_text(*self));
        from_chars(v)
    }
}

// ------------------------------------------------------------------ writing

pub type VertexModel = (Seq<u32>, Seq<u32>, Seq<u32>);

pub open spec fn pos_words(vs: Seq<(Seq<u32>, Seq<u32>, Seq<u32>)>) -> Seq<u32> {
    Seq::new(3 * vs.len(), |k: int| vs[k / 3].0[k % 3])
}

pub open spec fn normal_words(vs: Seq<(Seq<u32>, Seq<u32>, Seq<u32>)>) -> Seq<u32> {
    Seq::new(3 * vs.len(), |k: int| vs[k / 3].1[k % 3])
}

pub open spec fn uv_words(vs: Seq<(Seq<u32>, Seq<u32>, Seq<u32>)>) -> Seq<u32> {
    Seq::new(2 * vs.len(), |k: int| vs[k / 2].2[k % 2])
}

pub open spec fn enc_words(ws: Seq<u32>) -> Seq<u8> {
    enc_list(ws, enc_u32_fn())
}

/// The bytes `encode` writes: every array present, the positions, then
/// the normals, then the texture coordinates, then the indices.
pub open spec fn enc_mesh(vs: Seq<(Seq<u32>, Seq<u32>, Seq<u32>)>, is: Seq<u32>) -> Seq<u8> {
    magic() + seq![VERSION, 3u8] + enc_u32(wire_len(vs.len())) + enc_u32(wire_len(is.len()))
        + enc_words(pos_words(vs)) + enc_words(normal_words(vs)) + enc_words(uv_words(vs))
        + enc_words(is)
}

pub open spec fn vertex_views(v: Seq<Vertex>) -> Seq<(Seq<u32>, Seq<u32>, Seq<u32>)> {
    v.map_values(|x: Vertex| x@)
}

proof fn lemma_div3(i: int, j: int)
    requires
        0 <= i,
        0 <= j < 3,
    ensures
        (3 * i + j) / 3 == i,
        (3 * i + j) % 3 == j,
{
    assert((3 * i + j) / 3 == i && (3 * i + j) % 3 == j) by (nonlinear_arith)
        requires
            0 <= i,
            0 <= j < 3,
    ;
}

proof fn lemma_div2(i: int, j: int)
    requires
        0 <= i,
        0 <= j < 2,
    ensures
        (2 * i + j) / 2 == i,
        (2 * i + j) % 2 == j,
{
    assert((2 * i + j) / 2 == i && (2 * i + j) % 2 == j) by (nonlinear_arith)
        requires
            0 <= i,
            0 <= j < 2,
    ;
}

fn put_words3(w: &mut W, v: &[u32; 3])
    ensures
        final(w).buf@ == old(w).buf@ + enc_u32(v@[0]) + enc_u32(v@[1]) + enc_u32(v@[2]),
{
    w.u32(v[0]);
    w.u32(v[1]);
    w.u32(v[2]);
}

/// Write a mesh out, for tests and for a server written in Rust: with
/// normals and texture coordinates, whatever they hold.
pub fn encode(vertices: &Vec<Vertex>, indices: &Vec<u32>) -> (out: Vec<u8>)
    ensures
        out@ == enc_mesh(vertex_views(vertices@), indices@),
{
    let ghost vs = vertex_views(vertices@);
    let mut w = W::new();
    w.u8(69);
    w.u8(85);
    w.u8(73);
    w.u8(77);
    w.u8(VERSION);
    w.u8(3);
    w.u32(wire_count(vertices.len()));
    w.u32(wire_count(indices.len()));
    assert(w.buf@ =~= magic() + seq![VERSION, 3u8] + enc_u32(wire_len(vs.len())) + enc_u32(
        wire_len(indices@.len()),
    ));
    let n = vertices.len();
    let ghost h = w.buf@;
    let mut i: usize = 0;
    while i < n
        invariant
            vs == vertex_views(vertices@),
            n == vertices@.len(),
            i <= n,
            w.buf@ == h + enc_words(pos_words(vs).take(3 * i)),
        decreases n - i,
    {
        let ghost before = w.buf@;
        put_words3(&mut w, &vertices[i].pos);
        proof {
            let ws = pos_words(vs);
            lemma_div3(i as int, 0);
            lemma_div3(i as int, 1);
            lemma_div3(i as int, 2);
            assert(ws[3 * i] == vs[i as int].0[0]);
            assert(ws[3 * i + 1] == vs[i as int].0[1]);
            assert(ws[3 * i + 2] == vs[i as int].0[2]);
            lemma_enc_list_push(ws, 3 * i, enc_u32_fn());
            lemma_enc_list_push(ws, 3 * i + 1, enc_u32_fn());
            lemma_enc_list_push(ws, 3 * i + 2, enc_u32_fn());
        }
        i = i + 1;
        assert(w.buf@ =~= h + enc_words(pos_words(vs).take(3 * i)));
    }
    assert(pos_words(vs).take(3 * n) =~= pos_words(vs));
    let ghost h = w.buf@;
    let mut i: usize = 0;
    while i < n
        invariant
            vs == vertex_views(vertices@),
            n == vertices@.len(),
            i <= n,
            w.buf@ == h + enc_words(normal_words(vs).take(3 * i)),
        decreases n - i,
    {
        put_words3(&mut w, &vertices[i].normal);
        proof {
            let ws = normal_words(vs);
            lemma_div3(i as int, 0);
            lemma_div3(i as int, 1);
            lemma_div3(i as int, 2);
            assert(ws[3 * i] == vs[i as int].1[0]);
            assert(ws[3 * i + 1] == vs[i as int].1[1]);
            assert(ws[3 * i + 2] == vs[i as int].1[2]);
            lemma_enc_list_push(ws, 3 * i, enc_u32_fn());
            lemma_enc_list_push(ws, 3 * i + 1, enc_u32_fn());
            lemma_enc_list_push(ws, 3 * i + 2, enc_u32_fn());
        }
        i = i + 1;
        assert(w.buf@ =~= h + enc_words(normal_words(vs).take(3 * i)));
    }
    assert(normal_words(vs).take(3 * n) =~= normal_words(vs));
    let ghost h = w.buf@;
    let mut i: usize = 0;
    while i < n
        invariant
            vs == vertex_views(vertices@),
            n == vertices@.len(),
            i <= n,
            w.buf@ == h + enc_words(uv_words(vs).take(2 * i)),
        decreases n - i,
    {
        let uv = vertices[i].uv;
        w.u32(uv[0]);
        w.u32(uv[1]);
        proof {
            let ws = uv_words(vs);
            lemma_div2(i as int, 0);
            lemma_div2(i as int, 1);
            assert(ws[2 * i] == vs[i as int].2[0]);
            assert(ws[2 * i + 1] == vs[i as int].2[1]);
            lemma_enc_list_push(ws, 2 * i, enc_u32_fn());
            lemma_enc_list_push(ws, 2 * i + 1, enc_u32_fn());
        }
        i = i + 1;
        assert(w.buf@ =~= h + enc_words(uv_words(vs).take(2 * i)));
    }
    assert(uv_words(vs).take(2 * n) =~= uv_words(vs));
    let ghost h = w.buf@;
    let mut k: usize = 0;
    while k < indices.len()
        invariant
            k <= indices@.len(),
            w.buf@ == h + enc_words(indices@.take(k as int)),
        decreases indices.len() - k,
    {
        w.u32(indices[k]);
        proof {
            lemma_enc_list_push(indices@, k as int, enc_u32_fn());
        }
        k = k + 1;
        assert(w.buf@ =~= h + enc_words(indices@.take(k as int)));
    }
    assert(indices@.take(k as int) =~= indices@);
    assert(w.buf@ =~= enc_mesh(vs, indices@));
    w.buf
}

// ------------------------------------------------------------------ round trip

proof fn lemma_words_at(s: Seq<u8>, i: int, ws: Seq<u32>)
    requires
        at(s, i, enc_words(ws)),
    ensures
        enc_words(ws).len() == 4 * ws.len(),
        forall|k: int| 0 <= k < ws.len() ==> le32(s, i + 4 * k) == #[trigger] ws[k],
    decreases ws.len(),
{
    if ws.len() > 0 {
        let front = ws.drop_last();
        lemma_at_split(s, i, enc_words(front), enc_u32(ws.last()));
        lemma_words_at(s, i, front);
        lemma_read_u32(s, i + 4 * front.len(), ws.last());
        assert forall|k: int| 0 <= k < ws.len() implies le32(s, i + 4 * k) == #[trigger] ws[k] by {
            if k < front.len() {
                assert(ws[k] == front[k]);
            }
        }
    }
}

proof fn lemma_no_bad_index(b: Seq<u8>, at: int, vc: u32, n: int, is: Seq<u32>)
    requires
        0 <= n <= is.len(),
        forall|k: int| 0 <= k < is.len() ==> le32(b, at + 4 * k) == #[trigger] is[k] && is[k] < vc,
    ensures
        first_bad(b, at, vc, n) is None,
    decreases n,
{
    if n > 0 {
        lemma_no_bad_index(b, at, vc, n - 1, is);
        assert(le32(b, at + 4 * (n - 1)) == is[n - 1]);
    }
}

/// A mesh `decode` accepts: within the caps, whole triangles, every
/// coordinate a number, and every index naming a vertex.
pub open spec fn wf_mesh(vs: Seq<(Seq<u32>, Seq<u32>, Seq<u32>)>, is: Seq<u32>) -> bool {
    &&& vs.len() <= MAX_VERTICES
    &&& is.len() <= MAX_INDICES
    &&& is.len() % 3 == 0
    &&& forall|i: int|
        0 <= i < vs.len() ==> (#[trigger] vs[i]).0.len() == 3 && vs[i].1.len() == 3 && vs[i].2.len()
            == 2
    &&& forall|i: int, j: int| 0 <= i < vs.len() && 0 <= j < 3 ==> finite(#[trigger] vs[i].0[j])
    &&& forall|i: int, j: int| 0 <= i < vs.len() && 0 <= j < 3 ==> finite(#[trigger] vs[i].1[j])
    &&& forall|i: int, j: int| 0 <= i < vs.len() && 0 <= j < 2 ==> finite(#[trigger] vs[i].2[j])
    &&& forall|k: int| 0 <= k < is.len() ==> #[trigger] is[k] < vs.len()
}

/// What `encode` writes, `decode` reads back whole.
#[verifier::rlimit(100)]
pub proof fn lemma_mesh_round_trip(vs: Seq<(Seq<u32>, Seq<u32>, Seq<u32>)>, is: Seq<u32>)
    requires
        wf_mesh(vs, is),
    ensures
        decoded(enc_mesh(vs, is)) == Ok::<MeshModel, MeshError>(MeshModel { vertices: vs, indices: is }),
{
    let n = vs.len() as int;
    let m = is.len() as int;
    let b = enc_mesh(vs, is);
    let a = magic() + seq![VERSION, 3u8];
    let hb = enc_u32(wire_len(vs.len()));
    let hc = enc_u32(wire_len(is.len()));
    let pw = pos_words(vs);
    let nw = normal_words(vs);
    let uw = uv_words(vs);
    let p = enc_words(pw);
    let q = enc_words(nw);
    let u = enc_words(uw);
    let x = enc_words(is);
    assert(at(b, 0, b)) by {
        reveal(at);
        assert(b.subrange(0, b.len() as int) =~= b);
    }
    lemma_at_split(b, 0, a + hb + hc + p + q + u, x);
    lemma_at_split(b, 0, a + hb + hc + p + q, u);
    lemma_at_split(b, 0, a + hb + hc + p, q);
    lemma_at_split(b, 0, a + hb + hc, p);
    lemma_at_split(b, 0, a + hb, hc);
    lemma_at_split(b, 0, a, hb);
    lemma_read_u32(b, 6, wire_len(vs.len()));
    lemma_read_u32(b, 10, wire_len(is.len()));
    lemma_words_at(b, 14, pw);
    lemma_words_at(b, 14 + 12 * n, nw);
    lemma_words_at(b, 14 + 24 * n, uw);
    lemma_words_at(b, 14 + 32 * n, is);
    assert(b.take(4) =~= magic());
    assert(b[4] == VERSION && b[5] == 3u8);
    assert(3u8 & 0xfcu8 == 0u8 && 3u8 & 1u8 != 0u8 && 3u8 & 2u8 != 0u8) by (bit_vector);
    let vc = le32(b, 6);
    let ic = le32(b, 10);
    assert(vc == n && ic == m);
    assert(float_count(3u8, n) == 8 * n);
    assert(indices_at(3u8, n) == 14 + 32 * n);
    assert forall|k: int| 0 <= k < float_count(3u8, vc as int) implies finite(
        #[trigger] le32(b, 14 + 4 * k),
    ) by {
        if k < 3 * n {
            assert(le32(b, 14 + 4 * k) == pw[k]);
            assert(pw[k] == vs[k / 3].0[k % 3]);
            assert(0 <= k / 3 < n && 0 <= k % 3 < 3) by (nonlinear_arith)
                requires
                    0 <= k < 3 * n,
            ;
        } else if k < 6 * n {
            let k2 = k - 3 * n;
            assert(le32(b, 14 + 12 * n + 4 * k2) == nw[k2]);
            assert(nw[k2] == vs[k2 / 3].1[k2 % 3]);
            assert(0 <= k2 / 3 < n && 0 <= k2 % 3 < 3) by (nonlinear_arith)
                requires
                    0 <= k2 < 3 * n,
            ;
        } else {
            let k3 = k - 6 * n;
            assert(le32(b, 14 + 24 * n + 4 * k3) == uw[k3]);
            assert(uw[k3] == vs[k3 / 2].2[k3 % 2]);
            assert(0 <= k3 / 2 < n && 0 <= k3 % 2 < 2) by (nonlinear_arith)
                requires
                    0 <= k3 < 2 * n,
            ;
        }
    }
    assert forall|k: int| 0 <= k < is.len() implies le32(b, 14 + 32 * n + 4 * k) == #[trigger] is[k]
        && is[k] < vc by {}
    lemma_no_bad_index(b, 14 + 32 * n, vc, m, is);
    assert forall|i: int| 0 <= i < n implies vertex_at(b, 3u8, n, i) == #[trigger] vs[i] by {
        lemma_div3(i, 0);
        lemma_div3(i, 1);
        lemma_div3(i, 2);
        lemma_div2(i, 0);
        lemma_div2(i, 1);
        assert(le32(b, 14 + 4 * (3 * i)) == pw[3 * i]);
        assert(le32(b, 14 + 4 * (3 * i + 1)) == pw[3 * i + 1]);
        assert(le32(b, 14 + 4 * (3 * i + 2)) == pw[3 * i + 2]);
        assert(le32(b, 14 + 12 * n + 4 * (3 * i)) == nw[3 * i]);
        assert(le32(b, 14 + 12 * n + 4 * (3 * i + 1)) == nw[3 * i + 1]);
        assert(le32(b, 14 + 12 * n + 4 * (3 * i + 2)) == nw[3 * i + 2]);
        assert(le32(b, 14 + 24 * n + 4 * (2 * i)) == uw[2 * i]);
        assert(le32(b, 14 + 24 * n + 4 * (2 * i + 1)) == uw[2 * i + 1]);
        let v = vertex_at(b, 3u8, n, i);
        assert(v.0 =~= vs[i].0);
        assert(v.1 =~= vs[i].1);
        assert(v.2 =~= vs[i].2);
    }
    assert(Seq::new(vc as nat, |i: int| vertex_at(b, 3u8, vc as int, i)) =~= vs);
    assert(Seq::new(ic as nat, |k: int| le32(b, indices_at(3u8, vc as int) + 4 * k)) =~= is);
}


proof fn lemma_first_bad_names(b: Seq<u8>, at: int, vc: u32, n: int)
    ensures
        first_bad(b, at, vc, n) is None <==> forall|k: int| 0 <= k < n ==> #[trigger] le32(b, at + 4 * k) < vc,
        first_bad(b, at, vc, n) matches Some(x) ==> x >= vc,
    decreases n,
{
    if n > 0 {
        lemma_first_bad_names(b, at, vc, n - 1);
        if first_bad(b, at, vc, n - 1) is Some {
            let x = first_bad(b, at, vc, n - 1)->0;
            assert(!(forall|k: int| 0 <= k < n - 1 ==> #[trigger] le32(b, at + 4 * k) < vc));
            let k = choose|k: int| 0 <= k < n - 1 && !(#[trigger] le32(b, at + 4 * k) < vc);
            assert(0 <= k < n && !(le32(b, at + 4 * k) < vc));
        } else {
            assert(le32(b, at + 4 * (n - 1)) == le32(b, at + 4 * (n - 1)));
        }
    }
}

/// Every index of a mesh `decode` accepts names a vertex that is there,
/// every coordinate is a number, and every index the header's vertex count
/// does not cover is refused: if the header holds and some index field is
/// past the vertices, decoding fails, on that index or on a coordinate
/// before it.
pub proof fn lemma_decoded_is_safe(b: Seq<u8>)
    ensures
        decoded(b) matches Ok(m) ==> (forall|k: int|
            0 <= k < m.indices.len() ==> #[trigger] m.indices[k] < m.vertices.len()),
        decoded(b) matches Ok(m) ==> (forall|i: int, j: int|
            0 <= i < m.vertices.len() && 0 <= j < 3 ==> finite(#[trigger] m.vertices[i].0[j])),
        decoded(b) matches Err(MeshError::Index { at, of }) ==> at >= of,
        header(b) matches Ok((flags, vc, ic)) && (exists|k: int|
            0 <= k < ic && #[trigger] le32(b, indices_at(flags, vc as int) + 4 * k) >= vc)
            ==> (decoded(b) matches Err(e) && (e is NotFinite || e is Index)),
{
    if let Ok((flags, vc, ic)) = header(b) {
        let at = indices_at(flags, vc as int);
        lemma_first_bad_names(b, at, vc, ic as int);
        if let Ok(m) = decoded(b) {
            assert forall|k: int| 0 <= k < m.indices.len() implies #[trigger] m.indices[k] < m.vertices.len() by {
                assert(m.indices[k] == le32(b, at + 4 * k));
            }
            assert forall|i: int, j: int| 0 <= i < m.vertices.len() && 0 <= j < 3 implies finite(
                #[trigger] m.vertices[i].0[j],
            ) by {
                assert(m.vertices[i] == vertex_at(b, flags, vc as int, i));
                let q = 3 * i + j;
                assert(0 <= q < float_count(flags, vc as int));
                assert(14 + 4 * q == 14 + 12 * i + 4 * j);
                assert(finite(le32(b, 14 + 4 * q)));
            }
        }
    }
}

} // verus!
