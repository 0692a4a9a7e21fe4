//! The private wire between a window and its worker: little-endian
//! integers, length-prefixed bytes, and the reader and writer for them.
//!
//! Every reader here is described by a parser over `Seq<u8>`: `p_x(s, i)`
//! is what reading an `x` at offset `i` of `s` gives, and where it leaves
//! the cursor. Every writer appends exactly `enc_x(v)`. The lemmas at the
//! end say that reading what was written gives the value back, whatever
//! stands before and after it.

use vstd::prelude::*;
use vstd::utf8::*;
use vstd::string::*;
use vstd::slice::slice_subrange;
use vstd::slice::slice_to_vec;

verus! {

/// Why bytes on the pipe are not a message.
#[derive(Debug, Clone, Copy, PartialEq, Eq)]
pub enum WireError {
    /// A length that does not fit the address space.
    LengthOverflow,
    /// The bytes end before the value does.
    Truncated,
    /// A string that is not UTF-8.
    Utf8,
    /// A tag no variant has.
    UnknownTag,
    /// A value outside what its field allows.
    BadValue,
    /// Bytes left over after the message.
    TrailingBytes,
}

// ------------------------------------------------------------------ specs

/// Whether `x` stands in `s` at offset `i`.
#[verifier::opaque]
pub open spec fn at(s: Seq<u8>, i: int, x: Seq<u8>) -> bool {
    0 <= i && i + x.len() <= s.len() && s.subrange(i, i + x.len()) =~= x
}

pub open spec fn enc_u8(v: u8) -> Seq<u8> {
    seq![v]
}

pub open spec fn enc_bool(v: bool) -> Seq<u8> {
    seq![if v { 1u8 } else { 0u8 }]
}

pub open spec fn enc_u32(v: u32) -> Seq<u8> {
    seq![
        (v % 256) as u8,
        ((v / 256) % 256) as u8,
        ((v / 65536) % 256) as u8,
        (v / 16777216) as u8,
    ]
}

pub open spec fn enc_u64(v: u64) -> Seq<u8> {
    enc_u32((v % 4294967296) as u32) + enc_u32((v / 4294967296) as u32)
}

/// The length a byte string is written with: its own, or `u32::MAX` when
/// it has more bytes than a `u32` can count.
pub open spec fn wire_len(n: nat) -> u32 {
    if n <= u32::MAX { n as u32 } else { u32::MAX }
}

pub open spec fn enc_bytes(b: Seq<u8>) -> Seq<u8> {
    enc_u32(wire_len(b.len())) + b
}

pub open spec fn enc_str(s: Seq<char>) -> Seq<u8> {
    enc_bytes(encode_utf8(s))
}

pub open spec fn enc_opt_str(s: Option<Seq<char>>) -> Seq<u8> {
    match s {
        Some(s) => enc_bool(true) + enc_str(s),
        None => enc_bool(false),
    }
}

/// The `u32` four bytes at `i` stand for.
pub open spec fn le32(s: Seq<u8>, i: int) -> u32 {
    (s[i] as int + s[i + 1] as int * 256 + s[i + 2] as int * 65536 + s[i + 3] as int * 16777216) as u32
}

pub open spec fn le64(s: Seq<u8>, i: int) -> u64 {
    (le32(s, i) as int + le32(s, i + 4) as int * 4294967296) as u64
}

pub open spec fn p_take(s: Seq<u8>, i: int, n: int) -> Result<(Seq<u8>, int), WireError> {
    if i + n > usize::MAX {
        Err(WireError::LengthOverflow)
    } else if i + n > s.len() {
        Err(WireError::Truncated)
    } else {
        Ok((s.subrange(i, i + n), i + n))
    }
}

pub open spec fn p_u8(s: Seq<u8>, i: int) -> Result<(u8, int), WireError> {
    if i + 1 > s.len() {
        Err(WireError::Truncated)
    } else {
        Ok((s[i], i + 1))
    }
}

pub open spec fn p_bool(s: Seq<u8>, i: int) -> Result<(bool, int), WireError> {
    match p_u8(s, i) {
        Ok((b, j)) => Ok((b != 0, j)),
        Err(e) => Err(e),
    }
}

pub open spec fn p_u32(s: Seq<u8>, i: int) -> Result<(u32, int), WireError> {
    if i + 4 > s.len() {
        Err(WireError::Truncated)
    } else {
        Ok((le32(s, i), i + 4))
    }
}

pub open spec fn p_u64(s: Seq<u8>, i: int) -> Result<(u64, int), WireError> {
    if i + 8 > s.len() {
        Err(WireError::Truncated)
    } else {
        Ok((le64(s, i), i + 8))
    }
}

pub open spec fn p_bytes(s: Seq<u8>, i: int) -> Result<(Seq<u8>, int), WireError> {
    match p_u32(s, i) {
        Ok((n, j)) => p_take(s, j, n as int),
        Err(e) => Err(e),
    }
}

pub open spec fn p_str(s: Seq<u8>, i: int) -> Result<(Seq<char>, int), WireError> {
    match p_bytes(s, i) {
        Ok((b, j)) => if valid_utf8(b) {
            Ok((decode_utf8(b), j))
        } else {
            Err(WireError::Utf8)
        },
        Err(e) => Err(e),
    }
}

pub open spec fn p_hash(s: Seq<u8>, i: int) -> Result<(Seq<u8>, int), WireError> {
    p_take(s, i, 32)
}

pub open spec fn p_opt_str(s: Seq<u8>, i: int) -> Result<(Option<Seq<char>>, int), WireError> {
    match p_bool(s, i) {
        Ok((present, j)) => if present {
            match p_str(s, j) {
                Ok((t, k)) => Ok((Some(t), k)),
                Err(e) => Err(e),
            }
        } else {
            Ok((None, j))
        },
        Err(e) => Err(e),
    }
}

// ------------------------------------------------------------------ lemmas

pub proof fn lemma_at_split(s: Seq<u8>, i: int, a: Seq<u8>, b: Seq<u8>)
    requires
        at(s, i, a + b),
    ensures
        at(s, i, a),
        at(s, i + a.len(), b),
{
    reveal(at);
    assert(s.subrange(i, i + a.len()) =~= (a + b).subrange(0, a.len() as int));
    assert(s.subrange(i + a.len(), i + a.len() + b.len()) =~= (a + b).subrange(
        a.len() as int,
        (a.len() + b.len()) as int,
    ));
}

pub proof fn lemma_at_join(s: Seq<u8>, i: int, a: Seq<u8>, b: Seq<u8>)
    requires
        at(s, i, a),
        at(s, i + a.len(), b),
    ensures
        at(s, i, a + b),
{
    reveal(at);
    assert(s.subrange(i, i + a.len() + b.len()) =~= a + b) by {
        assert forall|k: int| 0 <= k < a.len() + b.len() implies s.subrange(
            i,
            i + a.len() + b.len(),
        )[k] == (a + b)[k] by {
            if k < a.len() {
                assert(s.subrange(i, i + a.len())[k] == a[k]);
            } else {
                assert(s.subrange(i + a.len(), i + a.len() + b.len())[k - a.len()] == b[k
                    - a.len()]);
            }
        }
    }
}

pub proof fn lemma_u32_round(v: u32)
    ensures
        le32(enc_u32(v), 0) == v,
        enc_u32(v).len() == 4,
{
    let s = enc_u32(v);
    assert(s[0] as int == v % 256);
    assert(s[1] as int == (v / 256) % 256);
    assert(s[2] as int == (v / 65536) % 256);
    assert(s[3] as int == v / 16777216);
    assert(v as int == v % 256 + ((v / 256) % 256) * 256 + ((v / 65536) % 256) * 65536 + (v
        / 16777216) * 16777216) by (nonlinear_arith);
}

pub proof fn lemma_u32_unique(s: Seq<u8>, i: int)
    requires
        0 <= i,
        i + 4 <= s.len(),
    ensures
        enc_u32(le32(s, i)) =~= s.subrange(i, i + 4),
{
    let v = le32(s, i);
    let (a, b, c, d) = (s[i] as int, s[i + 1] as int, s[i + 2] as int, s[i + 3] as int);
    assert(0 <= a < 256 && 0 <= b < 256 && 0 <= c < 256 && 0 <= d < 256);
    assert(v as int == a + b * 256 + c * 65536 + d * 16777216);
    assert(v % 256 == a && (v / 256) % 256 == b && (v / 65536) % 256 == c && v / 16777216 == d)
        by (nonlinear_arith)
        requires
            v as int == a + b * 256 + c * 65536 + d * 16777216,
            0 <= a < 256,
            0 <= b < 256,
            0 <= c < 256,
            0 <= d < 256,
    ;
}

pub proof fn lemma_read_u32(s: Seq<u8>, i: int, v: u32)
    requires
        at(s, i, enc_u32(v)),
    ensures
        p_u32(s, i) == Ok::<(u32, int), WireError>((v, i + 4)),
{
    reveal(at);
    lemma_u32_round(v);
    let e = enc_u32(v);
    assert(s[i] == e[0] && s[i + 1] == e[1] && s[i + 2] == e[2] && s[i + 3] == e[3]) by {
        assert(s.subrange(i, i + 4)[0] == e[0]);
        assert(s.subrange(i, i + 4)[1] == e[1]);
        assert(s.subrange(i, i + 4)[2] == e[2]);
        assert(s.subrange(i, i + 4)[3] == e[3]);
    }
}

pub proof fn lemma_read_u64(s: Seq<u8>, i: int, v: u64)
    requires
        at(s, i, enc_u64(v)),
    ensures
        p_u64(s, i) == Ok::<(u64, int), WireError>((v, i + 8)),
{
    reveal(at);
    let lo = (v % 4294967296) as u32;
    let hi = (v / 4294967296) as u32;
    lemma_at_split(s, i, enc_u32(lo), enc_u32(hi));
    lemma_read_u32(s, i, lo);
    lemma_read_u32(s, i + 4, hi);
    assert(v as int == lo as int + hi as int * 4294967296) by (nonlinear_arith)
        requires
            lo as int == v % 4294967296,
            hi as int == v / 4294967296,
    ;
}

pub proof fn lemma_read_u8(s: Seq<u8>, i: int, v: u8)
    requires
        at(s, i, enc_u8(v)),
    ensures
        p_u8(s, i) == Ok::<(u8, int), WireError>((v, i + 1)),
{
    reveal(at);
    assert(s.subrange(i, i + 1)[0] == v);
}

pub proof fn lemma_read_bool(s: Seq<u8>, i: int, v: bool)
    requires
        at(s, i, enc_bool(v)),
    ensures
        p_bool(s, i) == Ok::<(bool, int), WireError>((v, i + 1)),
{
    reveal(at);
    assert(s.subrange(i, i + 1)[0] == (if v { 1u8 } else { 0u8 }));
}

pub proof fn lemma_read_take(s: Seq<u8>, i: int, b: Seq<u8>)
    requires
        at(s, i, b),
        s.len() <= usize::MAX,
    ensures
        p_take(s, i, b.len() as int) == Ok::<(Seq<u8>, int), WireError>((b, i + b.len())),
{
    reveal(at);
}

pub proof fn lemma_read_bytes(s: Seq<u8>, i: int, b: Seq<u8>)
    requires
        at(s, i, enc_bytes(b)),
        b.len() <= u32::MAX,
        s.len() <= usize::MAX,
    ensures
        p_bytes(s, i) == Ok::<(Seq<u8>, int), WireError>((b, i + 4 + b.len())),
{
    reveal(at);
    lemma_at_split(s, i, enc_u32(wire_len(b.len())), b);
    lemma_read_u32(s, i, wire_len(b.len()));
    lemma_read_take(s, i + 4, b);
}

/// A string written with no more bytes than a `u32` counts.
pub open spec fn str_fits(t: Seq<char>) -> bool {
    encode_utf8(t).len() <= u32::MAX
}

pub proof fn lemma_read_str(s: Seq<u8>, i: int, t: Seq<char>)
    requires
        at(s, i, enc_str(t)),
        str_fits(t),
        s.len() <= usize::MAX,
    ensures
        p_str(s, i) == Ok::<(Seq<char>, int), WireError>((t, i + enc_str(t).len())),
{
    reveal(at);
    lemma_read_bytes(s, i, encode_utf8(t));
    encode_utf8_valid_utf8(t);
    encode_utf8_decode_utf8(t);
}

pub proof fn lemma_read_opt_str(s: Seq<u8>, i: int, t: Option<Seq<char>>)
    requires
        at(s, i, enc_opt_str(t)),
        t matches Some(x) ==> str_fits(x),
        s.len() <= usize::MAX,
    ensures
        p_opt_str(s, i) == Ok::<(Option<Seq<char>>, int), WireError>((t, i + enc_opt_str(t).len())),
{
    reveal(at);
    match t {
        Some(x) => {
            lemma_at_split(s, i, enc_bool(true), enc_str(x));
            lemma_read_bool(s, i, true);
            lemma_read_str(s, i + 1, x);
        },
        None => {
            lemma_read_bool(s, i, false);
        },
    }
}

// ------------------------------------------------------------------ lists

/// `xs` written one after another, each by `f`.
pub open spec fn enc_list<T>(xs: Seq<T>, f: spec_fn(T) -> Seq<u8>) -> Seq<u8>
    decreases xs.len(),
{
    if xs.len() == 0 {
        Seq::empty()
    } else {
        enc_list(xs.drop_last(), f) + f(xs.last())
    }
}

/// `n` items read one after another, each by `item`.
pub open spec fn p_list<T>(
    s: Seq<u8>,
    i: int,
    n: nat,
    item: spec_fn(Seq<u8>, int) -> Result<(T, int), WireError>,
) -> Result<(Seq<T>, int), WireError>
    decreases n,
{
    if n == 0 {
        Ok((Seq::empty(), i))
    } else {
        match item(s, i) {
            Ok((x, j)) => match p_list(s, j, (n - 1) as nat, item) {
                Ok((xs, k)) => Ok((seq![x] + xs, k)),
                Err(e) => Err(e),
            },
            Err(e) => Err(e),
        }
    }
}

/// `p_list` after `acc` has been read already, resuming at `i`.
pub open spec fn p_list_from<T>(
    acc: Seq<T>,
    s: Seq<u8>,
    i: int,
    n: nat,
    item: spec_fn(Seq<u8>, int) -> Result<(T, int), WireError>,
) -> Result<(Seq<T>, int), WireError> {
    match p_list(s, i, n, item) {
        Ok((xs, k)) => Ok((acc + xs, k)),
        Err(e) => Err(e),
    }
}

pub proof fn lemma_enc_list_front<T>(xs: Seq<T>, f: spec_fn(T) -> Seq<u8>)
    requires
        xs.len() > 0,
    ensures
        enc_list(xs, f) =~= f(xs[0]) + enc_list(xs.drop_first(), f),
    decreases xs.len(),
{
    if xs.len() == 1 {
        assert(xs.drop_last() =~= Seq::<T>::empty());
        assert(xs.drop_first() =~= Seq::<T>::empty());
    } else {
        lemma_enc_list_front(xs.drop_last(), f);
        assert(xs.drop_last().drop_first() =~= xs.drop_first().drop_last());
        assert(xs.drop_first().last() == xs.last());
    }
}

pub proof fn lemma_enc_list_push<T>(xs: Seq<T>, k: int, f: spec_fn(T) -> Seq<u8>)
    requires
        0 <= k < xs.len(),
    ensures
        enc_list(xs.take(k + 1), f) =~= enc_list(xs.take(k), f) + f(xs[k]),
{
    assert(xs.take(k + 1).drop_last() =~= xs.take(k));
}

pub proof fn lemma_read_list<T>(
    s: Seq<u8>,
    i: int,
    xs: Seq<T>,
    f: spec_fn(T) -> Seq<u8>,
    item: spec_fn(Seq<u8>, int) -> Result<(T, int), WireError>,
)
    requires
        at(s, i, enc_list(xs, f)),
        forall|k: int, j: int|
            0 <= k < xs.len() && #[trigger] at(s, j, f(xs[k])) ==> item(s, j) == Ok::<
                (T, int),
                WireError,
            >((xs[k], j + f(xs[k]).len())),
    ensures
        p_list(s, i, xs.len(), item) == Ok::<(Seq<T>, int), WireError>(
            (xs, i + enc_list(xs, f).len()),
        ),
    decreases xs.len(),
{
    reveal(at);
    if xs.len() == 0 {
        assert(xs =~= Seq::<T>::empty());
    } else {
        lemma_enc_list_front(xs, f);
        lemma_at_split(s, i, f(xs[0]), enc_list(xs.drop_first(), f));
        let j = i + f(xs[0]).len();
        assert(item(s, i) == Ok::<(T, int), WireError>((xs[0], j)));
        assert forall|k: int, jj: int|
            0 <= k < xs.drop_first().len() && #[trigger] at(s, jj, f(xs.drop_first()[k]))
                implies item(s, jj) == Ok::<(T, int), WireError>(
            (xs.drop_first()[k], jj + f(xs.drop_first()[k]).len()),
        ) by {
            assert(xs.drop_first()[k] == xs[k + 1]);
        }
        lemma_read_list(s, j, xs.drop_first(), f, item);
        assert(seq![xs[0]] + xs.drop_first() =~= xs);
    }
}

/// `xs` after their count: how every list crosses the pipe.
pub open spec fn enc_counted<T>(xs: Seq<T>, f: spec_fn(T) -> Seq<u8>) -> Seq<u8> {
    enc_u32(wire_len(xs.len())) + enc_list(xs, f)
}

/// A count, then that many items.
#[verifier::opaque]
pub open spec fn p_counted<T>(
    s: Seq<u8>,
    i: int,
    item: spec_fn(Seq<u8>, int) -> Result<(T, int), WireError>,
) -> Result<(Seq<T>, int), WireError> {
    match p_u32(s, i) {
        Ok((n, j)) => p_list(s, j, n as nat, item),
        Err(e) => Err(e),
    }
}

pub proof fn lemma_read_counted<T>(
    s: Seq<u8>,
    i: int,
    xs: Seq<T>,
    f: spec_fn(T) -> Seq<u8>,
    item: spec_fn(Seq<u8>, int) -> Result<(T, int), WireError>,
)
    requires
        at(s, i, enc_counted(xs, f)),
        xs.len() <= u32::MAX,
        forall|k: int, j: int|
            0 <= k < xs.len() && #[trigger] at(s, j, f(xs[k])) ==> item(s, j) == Ok::<
                (T, int),
                WireError,
            >((xs[k], j + f(xs[k]).len())),
    ensures
        p_counted(s, i, item) == Ok::<(Seq<T>, int), WireError>(
            (xs, i + enc_counted(xs, f).len()),
        ),
{
    reveal(p_counted);
    lemma_at_split(s, i, enc_u32(wire_len(xs.len())), enc_list(xs, f));
    lemma_read_u32(s, i, wire_len(xs.len()));
    lemma_read_list(s, i + 4, xs, f, item);
}

pub open spec fn enc_u32_fn() -> spec_fn(u32) -> Seq<u8> {
    |v: u32| enc_u32(v)
}

pub open spec fn p_u32_fn() -> spec_fn(Seq<u8>, int) -> Result<(u32, int), WireError> {
    |s: Seq<u8>, i: int| p_u32(s, i)
}

pub proof fn lemma_read_u32_list(s: Seq<u8>, i: int, xs: Seq<u32>)
    requires
        at(s, i, enc_counted(xs, enc_u32_fn())),
        xs.len() <= u32::MAX,
    ensures
        p_counted(s, i, p_u32_fn()) == Ok::<(Seq<u32>, int), WireError>(
            (xs, i + enc_counted(xs, enc_u32_fn()).len()),
        ),
{
    assert forall|k: int, j: int|
        0 <= k < xs.len() && #[trigger] at(s, j, enc_u32_fn()(xs[k])) implies p_u32_fn()(s, j)
        == Ok::<(u32, int), WireError>((xs[k], j + enc_u32_fn()(xs[k]).len())) by {
        lemma_read_u32(s, j, xs[k]);
    }
    lemma_read_counted(s, i, xs, enc_u32_fn(), p_u32_fn());
}

/// Count `n` as a `u32`, or `u32::MAX` when it is more.
pub fn wire_count(n: usize) -> (c: u32)
    ensures
        c == wire_len(n as nat),
{
    if n <= 4294967295 {
        n as u32
    } else {
        4294967295u32
    }
}

/// `+` on byte strings associates.
pub proof fn lemma_add_assoc(a: Seq<u8>, b: Seq<u8>, c: Seq<u8>)
    ensures
        (a + b) + c == a + (b + c),
{
    assert((a + b) + c =~= a + (b + c));
}

// ------------------------------------------------------------------ quads of words

/// Four `u32`s: a rectangle, a colour, or four `f32`s by their bits.
pub open spec fn enc_f4(v: Seq<u32>) -> Seq<u8> {
    enc_u32(v[0]) + enc_u32(v[1]) + enc_u32(v[2]) + enc_u32(v[3])
}

pub open spec fn p_f4(s: Seq<u8>, i: int) -> Result<(Seq<u32>, int), WireError> {
    if i + 16 > s.len() {
        Err(WireError::Truncated)
    } else {
        Ok((seq![le32(s, i), le32(s, i + 4), le32(s, i + 8), le32(s, i + 12)], i + 16))
    }
}

pub proof fn lemma_read_f4(s: Seq<u8>, i: int, v: Seq<u32>)
    requires
        at(s, i, enc_f4(v)),
        v.len() == 4,
    ensures
        p_f4(s, i) == Ok::<(Seq<u32>, int), WireError>((v, i + 16)),
{
    reveal(at);
    lemma_at_split(s, i, enc_u32(v[0]) + enc_u32(v[1]) + enc_u32(v[2]), enc_u32(v[3]));
    lemma_at_split(s, i, enc_u32(v[0]) + enc_u32(v[1]), enc_u32(v[2]));
    lemma_at_split(s, i, enc_u32(v[0]), enc_u32(v[1]));
    lemma_read_u32(s, i, v[0]);
    lemma_read_u32(s, i + 4, v[1]);
    lemma_read_u32(s, i + 8, v[2]);
    lemma_read_u32(s, i + 12, v[3]);
    assert(seq![v[0], v[1], v[2], v[3]] =~= v);
}

/// Four words as an array.
pub fn arr4(a: u32, b: u32, c: u32, d: u32) -> (x: [u32; 4])
    ensures
        x@ == seq![a, b, c, d],
{
    let x = [a, b, c, d];
    assert(x@ =~= seq![a, b, c, d]);
    x
}

// ------------------------------------------------------------------ writer

/// Bytes being written.
pub struct W {
    pub buf: Vec<u8>,
}

impl W {
    pub fn new() -> (w: W)
        ensures
            w.buf@ == Seq::<u8>::empty(),
    {
        W { buf: Vec::new() }
    }

    pub fn u8(&mut self, v: u8)
        ensures
            final(self).buf@ == old(self).buf@ + enc_u8(v),
    {
        self.buf.push(v);
        assert(self.buf@ =~= old(self).buf@ + enc_u8(v));
    }

    pub fn bool(&mut self, v: bool)
        ensures
            final(self).buf@ == old(self).buf@ + enc_bool(v),
    {
        self.buf.push(if v { 1u8 } else { 0u8 });
        assert(self.buf@ =~= old(self).buf@ + enc_bool(v));
    }

    pub fn u32(&mut self, v: u32)
        ensures
            final(self).buf@ == old(self).buf@ + enc_u32(v),
    {
        self.buf.push((v % 256) as u8);
        self.buf.push(((v / 256) % 256) as u8);
        self.buf.push(((v / 65536) % 256) as u8);
        self.buf.push((v / 16777216) as u8);
        assert(self.buf@ =~= old(self).buf@ + enc_u32(v));
    }

    pub fn u64(&mut self, v: u64)
        ensures
            final(self).buf@ == old(self).buf@ + enc_u64(v),
    {
        self.u32((v % 4294967296) as u32);
        self.u32((v / 4294967296) as u32);
        assert(self.buf@ =~= old(self).buf@ + enc_u64(v));
    }

    pub fn f4(&mut self, v: &[u32; 4])
        ensures
            final(self).buf@ == old(self).buf@ + enc_f4(v@),
    {
        self.u32(v[0]);
        self.u32(v[1]);
        self.u32(v[2]);
        self.u32(v[3]);
        assert(self.buf@ =~= old(self).buf@ + enc_f4(v@));
    }

    pub fn raw(&mut self, b: &[u8])
        ensures
            final(self).buf@ == old(self).buf@ + b@,
    {
        self.buf.extend_from_slice(b);
    }

    pub fn bytes(&mut self, b: &[u8])
        ensures
            final(self).buf@ == old(self).buf@ + enc_bytes(b@),
    {
        let n: u32 = if b.len() <= 4294967295 { b.len() as u32 } else { 4294967295u32 };
        self.u32(n);
        self.raw(b);
        assert(self.buf@ =~= old(self).buf@ + enc_bytes(b@));
    }

    pub fn hash(&mut self, h: &[u8; 32])
        ensures
            final(self).buf@ == old(self).buf@ + h@,
    {
        let ghost start = self.buf@;
        let mut k: usize = 0;
        while k < 32
            invariant
                h@.len() == 32,
                0 <= k <= 32,
                self.buf@ =~= start + h@.take(k as int),
            decreases 32 - k,
        {
            self.buf.push(h[k]);
            k = k + 1;
            assert(self.buf@ =~= start + h@.take(k as int));
        }
        assert(h@.take(32) =~= h@);
    }

    pub fn str(&mut self, s: &str)
        ensures
            final(self).buf@ == old(self).buf@ + enc_str(s@),
    {
        self.bytes(s.as_bytes());
    }

    pub fn opt_str(&mut self, s: Option<&str>)
        ensures
            final(self).buf@ == old(self).buf@ + enc_opt_str(
                match s {
                    Some(t) => Some(t@),
                    None => None,
                },
            ),
    {
        match s {
            Some(t) => {
                self.bool(true);
                self.str(t);
                assert(self.buf@ =~= old(self).buf@ + enc_opt_str(Some(t@)));
            },
            None => self.bool(false),
        }
    }
}

// ------------------------------------------------------------------ reader

/// Bytes being read, and how far.
pub struct R<'a> {
    pub b: &'a [u8],
    pub i: usize,
}

impl<'a> R<'a> {
    pub open spec fn s(&self) -> Seq<u8> {
        self.b@
    }

    pub open spec fn ok(&self) -> bool {
        self.i <= self.b@.len()
    }

    pub fn take(&mut self, n: usize) -> (res: Result<&'a [u8], WireError>)
        requires
            old(self).ok(),
        ensures
            final(self).ok(),
            final(self).b == old(self).b,
            match p_take(old(self).s(), old(self).i as int, n as int) {
                Ok((v, j)) => res matches Ok(x) && x@ == v && final(self).i == j,
                Err(e) => res == Err::<&'a [u8], WireError>(e),
            },
    {
        if n > usize::MAX - self.i {
            return Err(WireError::LengthOverflow);
        }
        let end = self.i + n;
        if end > self.b.len() {
            return Err(WireError::Truncated);
        }
        let s = slice_subrange(self.b, self.i, end);
        self.i = end;
        Ok(s)
    }

    pub fn u8(&mut self) -> (res: Result<u8, WireError>)
        requires
            old(self).ok(),
        ensures
            final(self).ok(),
            final(self).b == old(self).b,
            match p_u8(old(self).s(), old(self).i as int) {
                Ok((v, j)) => res == Ok::<u8, WireError>(v) && final(self).i == j,
                Err(e) => res == Err::<u8, WireError>(e),
            },
    {
        if self.i >= self.b.len() {
            return Err(WireError::Truncated);
        }
        let v = self.b[self.i];
        self.i = self.i + 1;
        Ok(v)
    }

    pub fn bool(&mut self) -> (res: Result<bool, WireError>)
        requires
            old(self).ok(),
        ensures
            final(self).ok(),
            final(self).b == old(self).b,
            match p_bool(old(self).s(), old(self).i as int) {
                Ok((v, j)) => res == Ok::<bool, WireError>(v) && final(self).i == j,
                Err(e) => res == Err::<bool, WireError>(e),
            },
    {
        let v = self.u8()?;
        Ok(v != 0)
    }

    pub fn u32(&mut self) -> (res: Result<u32, WireError>)
        requires
            old(self).ok(),
        ensures
            final(self).ok(),
            final(self).b == old(self).b,
            match p_u32(old(self).s(), old(self).i as int) {
                Ok((v, j)) => res == Ok::<u32, WireError>(v) && final(self).i == j,
                Err(e) => res == Err::<u32, WireError>(e),
            },
    {
        if self.b.len() - self.i < 4 {
            return Err(WireError::Truncated);
        }
        let i = self.i;
        let v: u32 = self.b[i] as u32 + (self.b[i + 1] as u32) * 256 + (self.b[i + 2] as u32)
            * 65536 + (self.b[i + 3] as u32) * 16777216;
        self.i = i + 4;
        Ok(v)
    }

    pub fn u64(&mut self) -> (res: Result<u64, WireError>)
        requires
            old(self).ok(),
        ensures
            final(self).ok(),
            final(self).b == old(self).b,
            match p_u64(old(self).s(), old(self).i as int) {
                Ok((v, j)) => res == Ok::<u64, WireError>(v) && final(self).i == j,
                Err(e) => res == Err::<u64, WireError>(e),
            },
    {
        if self.b.len() - self.i < 8 {
            return Err(WireError::Truncated);
        }
        let lo = self.u32()?;
        let hi = self.u32()?;
        Ok(lo as u64 + (hi as u64) * 4294967296)
    }

    pub fn f4(&mut self) -> (res: Result<[u32; 4], WireError>)
        requires
            old(self).ok(),
        ensures
            final(self).ok(),
            final(self).b == old(self).b,
            match p_f4(old(self).s(), old(self).i as int) {
                Ok((v, j)) => res matches Ok(x) && x@ == v && final(self).i == j,
                Err(e) => res == Err::<[u32; 4], WireError>(e),
            },
    {
        if self.b.len() - self.i < 16 {
            return Err(WireError::Truncated);
        }
        let a = self.u32()?;
        let b = self.u32()?;
        let c = self.u32()?;
        let d = self.u32()?;
        Ok(arr4(a, b, c, d))
    }

    pub fn bytes(&mut self) -> (res: Result<Vec<u8>, WireError>)
        requires
            old(self).ok(),
        ensures
            final(self).ok(),
            final(self).b == old(self).b,
            match p_bytes(old(self).s(), old(self).i as int) {
                Ok((v, j)) => res matches Ok(x) && x@ == v && final(self).i == j,
                Err(e) => res == Err::<Vec<u8>, WireError>(e),
            },
    {
        let n = self.u32()?;
        let s = self.take(n as usize)?;
        Ok(slice_to_vec(s))
    }

    pub fn str(&mut self) -> (res: Result<String, WireError>)
        requires
            old(self).ok(),
        ensures
            final(self).ok(),
            final(self).b == old(self).b,
            match p_str(old(self).s(), old(self).i as int) {
                Ok((v, j)) => res matches Ok(x) && x@ == v && final(self).i == j,
                Err(e) => res == Err::<String, WireError>(e),
            },
    {
        let b = self.bytes()?;
        match utf8_string(b) {
            Some(s) => Ok(s),
            None => Err(WireError::Utf8),
        }
    }

    pub fn hash(&mut self) -> (res: Result<[u8; 32], WireError>)
        requires
            old(self).ok(),
        ensures
            final(self).ok(),
            final(self).b == old(self).b,
            match p_hash(old(self).s(), old(self).i as int) {
                Ok((v, j)) => res matches Ok(x) && x@ == v && final(self).i == j,
                Err(e) => res == Err::<[u8; 32], WireError>(e),
            },
    {
        let s = self.take(32)?;
        let mut h = [0u8; 32];
        let mut k: usize = 0;
        while k < 32
            invariant
                s@.len() == 32,
                0 <= k <= 32,
                forall|j: int| 0 <= j < k ==> h@[j] == s@[j],
            decreases 32 - k,
        {
            h[k] = s[k];
            k = k + 1;
        }
        assert(h@ =~= s@);
        Ok(h)
    }

    pub fn opt_str(&mut self) -> (res: Result<Option<String>, WireError>)
        requires
            old(self).ok(),
        ensures
            final(self).ok(),
            final(self).b == old(self).b,
            match p_opt_str(old(self).s(), old(self).i as int) {
                Ok((v, j)) => res matches Ok(x) && final(self).i == j && match (x, v) {
                    (Some(a), Some(b)) => a@ == b,
                    (None, None) => true,
                    _ => false,
                },
                Err(e) => res == Err::<Option<String>, WireError>(e),
            },
    {
        if self.bool()? {
            let s = self.str()?;
            Ok(Some(s))
        } else {
            Ok(None)
        }
    }

    pub fn done(&self) -> (res: Result<(), WireError>)
        ensures
            res is Ok <==> self.i == self.b@.len(),
            res is Err ==> res == Err::<(), WireError>(WireError::TrailingBytes),
    {
        if self.i == self.b.len() {
            Ok(())
        } else {
            Err(WireError::TrailingBytes)
        }
    }
}

/// `String::from_utf8`: the bytes as a string when they are UTF-8, and
/// nothing when they are not.
#[verifier::external_body]
fn utf8_string(b: Vec<u8>) -> (res: Option<String>)
    ensures
        res is Some <==> valid_utf8(b@),
        res matches Some(s) ==> s@ == decode_utf8(b@),
{
    String::from_utf8(b).ok()
}

} // verus!
