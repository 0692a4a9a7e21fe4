//! Where a caret goes in a text field.
//!
//! A caret is a byte offset into the field's UTF-8 text, always on a
//! character's first byte or at the end. These functions move it by a
//! character, by a word, or find the line it is on. Each is stated over
//! the text's characters: `offset(cs, k)` is the byte offset of the `k`th
//! character, and every function maps a character index to another.

use vstd::prelude::*;
use vstd::utf8::*;
use crate::text::{is_space, is_space_char, chars_of};

verus! {

broadcast use vstd::string::group_string_axioms;

/// The byte offset at which the `k`th character of `cs` starts.
pub open spec fn offset(cs: Seq<char>, k: int) -> int {
    encode_utf8(cs.take(k)).len() as int
}

/// Whether byte offset `b` starts a character of `cs`, or is its end.
pub open spec fn boundary(cs: Seq<char>, b: int) -> bool {
    exists|k: int| 0 <= k <= cs.len() && offset(cs, k) == b
}

/// The index of the character that starts at byte offset `b`.
pub open spec fn at_char(cs: Seq<char>, b: int) -> int {
    choose|k: int| 0 <= k <= cs.len() && offset(cs, k) == b
}

/// The number of bytes `c` takes.
pub open spec fn width(c: char) -> int {
    let v = c as u32;
    if v < 0x80 {
        1
    } else if v < 0x800 {
        2
    } else if v < 0x10000 {
        3
    } else {
        4
    }
}

pub(crate) proof fn lemma_encode_concat(a: Seq<char>, b: Seq<char>)
    ensures
        encode_utf8(a + b) == encode_utf8(a) + encode_utf8(b),
    decreases a.len(),
{
    if a.len() == 0 {
        assert(a + b =~= b);
        assert(encode_utf8(a) + encode_utf8(b) =~= encode_utf8(b));
    } else {
        assert((a + b).drop_first() =~= a.drop_first() + b);
        assert((a + b)[0] == a[0]);
        lemma_encode_concat(a.drop_first(), b);
        assert(encode_utf8(a + b) =~= encode_utf8(a) + encode_utf8(b));
    }
}

proof fn lemma_width(c: char)
    ensures
        encode_scalar(c as u32).len() == width(c),
{
    char_is_scalar(c);
}

proof fn lemma_offset_step(cs: Seq<char>, k: int)
    requires
        0 <= k < cs.len(),
    ensures
        offset(cs, k + 1) == offset(cs, k) + width(cs[k]),
{
    let one = seq![cs[k]];
    assert(cs.take(k + 1) =~= cs.take(k) + one);
    lemma_encode_concat(cs.take(k), one);
    assert(one.drop_first() =~= Seq::<char>::empty());
    assert(encode_utf8(one.drop_first()) =~= Seq::<u8>::empty());
    assert(encode_utf8(one) =~= encode_scalar(cs[k] as u32));
    lemma_width(cs[k]);
}

/// Offsets grow by at least a byte a character.
pub(crate) proof fn lemma_offset_grows(cs: Seq<char>, j: int, k: int)
    requires
        0 <= j <= k <= cs.len(),
    ensures
        offset(cs, j) + (k - j) <= offset(cs, k),
    decreases k - j,
{
    if j < k {
        lemma_offset_grows(cs, j, k - 1);
        lemma_offset_step(cs, k - 1);
    }
}

pub(crate) proof fn lemma_offset_ends(cs: Seq<char>)
    ensures
        offset(cs, 0) == 0,
        offset(cs, cs.len() as int) == encode_utf8(cs).len(),
{
    assert(cs.take(0) =~= Seq::<char>::empty());
    assert(cs.take(cs.len() as int) =~= cs);
}

/// The character at a boundary is the one `at_char` names.
pub proof fn lemma_at_char(cs: Seq<char>, k: int)
    requires
        0 <= k <= cs.len(),
    ensures
        boundary(cs, offset(cs, k)),
        at_char(cs, offset(cs, k)) == k,
{
    let b = offset(cs, k);
    assert(0 <= k <= cs.len() && offset(cs, k) == b);
    let c = at_char(cs, b);
    if c < k {
        lemma_offset_grows(cs, c, k);
    } else if c > k {
        lemma_offset_grows(cs, k, c);
    }
}

/// The caret, held to the text: past the end counts as the end.
pub open spec fn clamp(s: &str, at: usize) -> int {
    if at < encode_utf8(s@).len() {
        at as int
    } else {
        encode_utf8(s@).len() as int
    }
}

/// A boundary's character index is a character of the text, and names the
/// boundary again; no boundary is past the end.
pub proof fn lemma_boundary(cs: Seq<char>, b: int)
    requires
        boundary(cs, b),
    ensures
        0 <= at_char(cs, b) <= cs.len(),
        offset(cs, at_char(cs, b)) == b,
        0 <= b <= encode_utf8(cs).len(),
{
    let k = at_char(cs, b);
    lemma_offset_ends(cs);
    lemma_offset_grows(cs, 0, k);
    lemma_offset_grows(cs, k, cs.len() as int);
}

/// Where the caret may stand in `s`: past the end, or on a boundary.
pub open spec fn caret_ok(s: &str, at: usize) -> bool {
    boundary(s@, clamp(s, at))
}

/// The boundary just before `b`, or the start.
pub open spec fn prev_at(cs: Seq<char>, b: int) -> int {
    let k = at_char(cs, b);
    offset(cs, if k > 0 { k - 1 } else { 0 })
}

/// The boundary just after `b`, or the end.
pub open spec fn next_at(cs: Seq<char>, b: int) -> int {
    let k = at_char(cs, b);
    offset(cs, if k < cs.len() { k + 1 } else { cs.len() as int })
}

/// Back over the characters before `k` that are (`space`) or are not
/// whitespace.
pub open spec fn skip_back(cs: Seq<char>, k: int, space: bool) -> int
    decreases k,
{
    if 0 < k <= cs.len() && is_space(cs[k - 1]) == space {
        skip_back(cs, k - 1, space)
    } else {
        k
    }
}

/// On over the characters from `k` that are (`space`) or are not
/// whitespace.
pub open spec fn skip_on(cs: Seq<char>, k: int, space: bool) -> int
    decreases cs.len() - k,
{
    if 0 <= k < cs.len() && is_space(cs[k]) == space {
        skip_on(cs, k + 1, space)
    } else {
        k
    }
}

/// Just after the last newline before `k`, or the start.
pub open spec fn line_start(cs: Seq<char>, k: int) -> int
    decreases k,
{
    if 0 < k <= cs.len() && cs[k - 1] != '\n' {
        line_start(cs, k - 1)
    } else {
        k
    }
}

/// The first newline at or after `k`, or the end.
pub open spec fn line_end(cs: Seq<char>, k: int) -> int
    decreases cs.len() - k,
{
    if 0 <= k < cs.len() && cs[k] != '\n' {
        line_end(cs, k + 1)
    } else {
        k
    }
}

pub(crate) proof fn lemma_skip_back(cs: Seq<char>, k: int, space: bool)
    requires
        0 <= k <= cs.len(),
    ensures
        0 <= skip_back(cs, k, space) <= k,
    decreases k,
{
    if 0 < k && is_space(cs[k - 1]) == space {
        lemma_skip_back(cs, k - 1, space);
    }
}

pub(crate) proof fn lemma_skip_on(cs: Seq<char>, k: int, space: bool)
    requires
        0 <= k <= cs.len(),
    ensures
        k <= skip_on(cs, k, space) <= cs.len(),
    decreases cs.len() - k,
{
    if k < cs.len() && is_space(cs[k]) == space {
        lemma_skip_on(cs, k + 1, space);
    }
}

pub(crate) proof fn lemma_line_start(cs: Seq<char>, k: int)
    requires
        0 <= k <= cs.len(),
    ensures
        0 <= line_start(cs, k) <= k,
    decreases k,
{
    if 0 < k && cs[k - 1] != '\n' {
        lemma_line_start(cs, k - 1);
    }
}

pub(crate) proof fn lemma_line_end(cs: Seq<char>, k: int)
    requires
        0 <= k <= cs.len(),
    ensures
        k <= line_end(cs, k) <= cs.len(),
    decreases cs.len() - k,
{
    if k < cs.len() && cs[k] != '\n' {
        lemma_line_end(cs, k + 1);
    }
}

fn char_width(c: char) -> (w: usize)
    ensures
        w == width(c),
{
    let v = c as u32;
    if v < 0x80 {
        1
    } else if v < 0x800 {
        2
    } else if v < 0x10000 {
        3
    } else {
        4
    }
}

/// The text's characters and the byte offset of each, with the end's last.
pub(crate) fn layout(s: &str) -> (r: (Vec<char>, Vec<usize>))
    ensures
        r.0@ == s@,
        r.1@.len() == s@.len() + 1,
        forall|k: int| 0 <= k <= s@.len() ==> r.1@[k] == offset(s@, k),
        r.1@[s@.len() as int] == encode_utf8(s@).len(),
{
    let cs = chars_of(s);
    let ghost t = s@;
    let total = s.as_bytes().len();
    proof {
        lemma_offset_ends(t);
    }
    let mut o: Vec<usize> = Vec::new();
    o.push(0);
    let mut k: usize = 0;
    let mut at: usize = 0;
    while k < cs.len()
        invariant
            cs@ == t,
            total == offset(t, t.len() as int),
            k <= t.len(),
            at == offset(t, k as int),
            o@.len() == k + 1,
            forall|j: int| 0 <= j <= k ==> o@[j] == offset(t, j),
        decreases cs.len() - k,
    {
        proof {
            lemma_offset_step(t, k as int);
            lemma_offset_grows(t, k + 1, t.len() as int);
        }
        at = at + char_width(cs[k]);
        o.push(at);
        k = k + 1;
    }
    (cs, o)
}

/// The character index of the caret at `at`.
pub(crate) fn locate(o: &Vec<usize>, n: usize, at: usize, Ghost(cs): Ghost<Seq<char>>) -> (k: usize)
    requires
        n == cs.len(),
        o@.len() == n + 1,
        forall|j: int| 0 <= j <= n ==> o@[j] == offset(cs, j),
        at >= o@[n as int] || boundary(cs, at as int),
    ensures
        k <= n,
        k == at_char(cs, if at < o@[n as int] { at as int } else { o@[n as int] as int }),
{
    if at >= o[n] {
        proof {
            lemma_at_char(cs, n as int);
        }
        return n;
    }
    let ghost want = at_char(cs, at as int);
    proof {
        lemma_at_char(cs, want);
    }
    let mut k: usize = 0;
    while k < n && o[k] != at
        invariant
            k <= n,
            n == cs.len(),
            o@.len() == n + 1,
            forall|j: int| 0 <= j <= n ==> o@[j] == offset(cs, j),
            0 <= want <= n,
            offset(cs, want) == at,
            k <= want,
        decreases n - k,
    {
        k = k + 1;
    }
    proof {
        if k < want {
            lemma_offset_grows(cs, k as int, want);
        }
    }
    k
}

/// The character before the caret: the boundary just before `at`, or the
/// start.
pub fn prev_char(s: &str, at: usize) -> (r: usize)
    requires
        caret_ok(s, at),
    ensures
        r == prev_at(s@, clamp(s, at)),
{
    let (cs, o) = layout(s);
    let n = cs.len();
    let k = locate(&o, n, at, Ghost(s@));
    if k > 0 {
        o[k - 1]
    } else {
        o[0]
    }
}

/// The character after the caret: the boundary just after `at`, or the end.
pub fn next_char(s: &str, at: usize) -> (r: usize)
    requires
        caret_ok(s, at),
    ensures
        r == next_at(s@, clamp(s, at)),
{
    let (cs, o) = layout(s);
    let n = cs.len();
    let k = locate(&o, n, at, Ghost(s@));
    if k < n {
        o[k + 1]
    } else {
        o[n]
    }
}

fn back_over(cs: &Vec<char>, k: usize, space: bool) -> (r: usize)
    requires
        k <= cs@.len(),
    ensures
        r == skip_back(cs@, k as int, space),
{
    let mut i = k;
    while i > 0 && is_space_char(cs[i - 1]) == space
        invariant
            i <= k <= cs@.len(),
            skip_back(cs@, i as int, space) == skip_back(cs@, k as int, space),
        decreases i,
    {
        i = i - 1;
    }
    i
}

fn on_over(cs: &Vec<char>, k: usize, space: bool) -> (r: usize)
    requires
        k <= cs@.len(),
    ensures
        r == skip_on(cs@, k as int, space),
{
    let mut i = k;
    while i < cs.len() && is_space_char(cs[i]) == space
        invariant
            k <= i <= cs@.len(),
            skip_on(cs@, i as int, space) == skip_on(cs@, k as int, space),
        decreases cs@.len() - i,
    {
        i = i + 1;
    }
    i
}

/// The start of the word before the caret: back over whitespace, then
/// over the word.
pub fn word_left(s: &str, at: usize) -> (r: usize)
    requires
        caret_ok(s, at),
    ensures
        r == offset(s@, skip_back(s@, skip_back(s@, at_char(s@, clamp(s, at)), true), false)),
{
    let (cs, o) = layout(s);
    let n = cs.len();
    let k = locate(&o, n, at, Ghost(s@));
    let a = back_over(&cs, k, true);
    proof {
        lemma_skip_back(s@, k as int, true);
    }
    let b = back_over(&cs, a, false);
    proof {
        lemma_skip_back(s@, a as int, false);
    }
    o[b]
}

/// The end of the word after the caret: over the word, then over the
/// whitespace after it.
pub fn word_right(s: &str, at: usize) -> (r: usize)
    requires
        caret_ok(s, at),
    ensures
        r == offset(s@, skip_on(s@, skip_on(s@, at_char(s@, clamp(s, at)), false), true)),
{
    let (cs, o) = layout(s);
    let n = cs.len();
    let k = locate(&o, n, at, Ghost(s@));
    let a = on_over(&cs, k, false);
    proof {
        lemma_skip_on(s@, k as int, false);
    }
    let b = on_over(&cs, a, true);
    proof {
        lemma_skip_on(s@, a as int, true);
    }
    o[b]
}

/// The start and the end of the line the caret is on: just after the
/// newline before it, and the newline after it (or the text's ends).
pub fn line_bounds(s: &str, at: usize) -> (r: (usize, usize))
    requires
        caret_ok(s, at),
    ensures
        r.0 == offset(s@, line_start(s@, at_char(s@, clamp(s, at)))),
        r.1 == offset(s@, line_end(s@, at_char(s@, clamp(s, at)))),
{
    let (cs, o) = layout(s);
    let n = cs.len();
    let k = locate(&o, n, at, Ghost(s@));
    let mut i = k;
    while i > 0 && cs[i - 1] != '\n'
        invariant
            i <= k <= cs@.len(),
            line_start(cs@, i as int) == line_start(cs@, k as int),
        decreases i,
    {
        i = i - 1;
    }
    let mut j = k;
    while j < n && cs[j] != '\n'
        invariant
            k <= j <= cs@.len(),
            n == cs@.len(),
            line_end(cs@, j as int) == line_end(cs@, k as int),
        decreases n - j,
    {
        j = j + 1;
    }
    (o[i], o[j])
}

/// Stepping over a character and back returns the caret where it was.
pub proof fn lemma_next_then_prev(cs: Seq<char>, b: int)
    requires
        boundary(cs, b),
        b < encode_utf8(cs).len(),
    ensures
        prev_at(cs, next_at(cs, b)) == b,
{
    let k = at_char(cs, b);
    lemma_offset_ends(cs);
    if k == cs.len() {
        assert(false);
    }
    lemma_at_char(cs, k + 1);
}

/// Stepping back over a character and on again returns the caret where
/// it was.
pub proof fn lemma_prev_then_next(cs: Seq<char>, b: int)
    requires
        boundary(cs, b),
        b > 0,
    ensures
        next_at(cs, prev_at(cs, b)) == b,
{
    let k = at_char(cs, b);
    lemma_offset_ends(cs);
    if k == 0 {
        assert(false);
    }
    lemma_at_char(cs, k - 1);
}

/// A word to the left is never to the right of the caret, a word to the
/// right never to its left, and the line the caret is on holds it.
pub proof fn lemma_moves_keep_order(cs: Seq<char>, b: int)
    requires
        boundary(cs, b),
    ensures
        offset(cs, skip_back(cs, skip_back(cs, at_char(cs, b), true), false)) <= b,
        b <= offset(cs, skip_on(cs, skip_on(cs, at_char(cs, b), false), true)),
        offset(cs, line_start(cs, at_char(cs, b))) <= b <= offset(cs, line_end(cs, at_char(cs, b))),
{
    let k = at_char(cs, b);
    lemma_skip_back(cs, k, true);
    lemma_skip_back(cs, skip_back(cs, k, true), false);
    lemma_offset_grows(cs, skip_back(cs, skip_back(cs, k, true), false), k);
    lemma_skip_on(cs, k, false);
    lemma_skip_on(cs, skip_on(cs, k, false), true);
    lemma_offset_grows(cs, k, skip_on(cs, skip_on(cs, k, false), true));
    lemma_line_start(cs, k);
    lemma_line_end(cs, k);
    lemma_offset_grows(cs, line_start(cs, k), k);
    lemma_offset_grows(cs, k, line_end(cs, k));
}

} // verus!
