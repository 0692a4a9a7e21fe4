//! Text as the client's small file formats read it: characters, the
//! whitespace `str::trim` strips, lines as `str::lines` yields them, and
//! decimal numbers.

use vstd::prelude::*;

verus! {

broadcast use vstd::string::group_string_axioms;

/// Unicode `White_Space`, the property `char::is_whitespace` tests.
pub open spec fn is_space(c: char) -> bool {
    let v = c as u32;
    (9 <= v <= 13) || v == 32 || v == 0x85 || v == 0xa0 || v == 0x1680 || (0x2000 <= v <= 0x200a)
        || v == 0x2028 || v == 0x2029 || v == 0x202f || v == 0x205f || v == 0x3000
}

pub open spec fn trim_start(s: Seq<char>) -> Seq<char>
    decreases s.len(),
{
    if s.len() > 0 && is_space(s[0]) {
        trim_start(s.drop_first())
    } else {
        s
    }
}

pub open spec fn trim_end(s: Seq<char>) -> Seq<char>
    decreases s.len(),
{
    if s.len() > 0 && is_space(s.last()) {
        trim_end(s.drop_last())
    } else {
        s
    }
}

/// `str::trim`: whitespace off both ends.
pub open spec fn trim(s: Seq<char>) -> Seq<char> {
    trim_end(trim_start(s))
}

/// The first `c` at or after `i`, or the end.
pub open spec fn find(t: Seq<char>, i: int, c: char) -> int
    decreases t.len() - i,
{
    if i >= t.len() {
        t.len() as int
    } else if t[i] == c {
        i
    } else {
        find(t, i + 1, c)
    }
}

/// The first `'\n'` at or after `i`, or the end.
pub open spec fn next_nl(t: Seq<char>, i: int) -> int {
    find(t, i, '\n')
}

/// The line that starts at `i`, as `str::lines` gives it: without its
/// `'\n'`, and without the `'\r'` of a `"\r\n"`.
pub open spec fn line_at(t: Seq<char>, i: int) -> Seq<char> {
    let k = next_nl(t, i);
    if k < t.len() && k > i && t[k - 1] == '\r' {
        t.subrange(i, k - 1)
    } else {
        t.subrange(i, k)
    }
}

/// The lines of `t` from `i` on; nothing after a final `'\n'`.
pub open spec fn lines_from(t: Seq<char>, i: int) -> Seq<Seq<char>>
    decreases t.len() + 1 - i,
{
    if i < 0 || i >= t.len() {
        Seq::empty()
    } else {
        proof {
            lemma_next_nl(t, i);
        }
        seq![line_at(t, i)] + lines_from(t, next_nl(t, i) + 1)
    }
}

pub open spec fn lines(t: Seq<char>) -> Seq<Seq<char>> {
    lines_from(t, 0)
}

pub proof fn lemma_find(t: Seq<char>, i: int, c: char)
    requires
        0 <= i <= t.len(),
    ensures
        i <= find(t, i, c) <= t.len(),
        find(t, i, c) < t.len() ==> t[find(t, i, c)] == c,
        forall|j: int| i <= j < find(t, i, c) ==> t[j] != c,
    decreases t.len() - i,
{
    if i < t.len() && t[i] != c {
        lemma_find(t, i + 1, c);
    }
}

/// What a scan that stopped at `k` found: the first `c` from `i`.
pub proof fn lemma_find_is(t: Seq<char>, i: int, c: char, k: int)
    requires
        0 <= i <= k <= t.len(),
        forall|j: int| i <= j < k ==> t[j] != c,
        k < t.len() ==> t[k] == c,
    ensures
        find(t, i, c) == k,
    decreases k - i,
{
    if i < k {
        lemma_find_is(t, i + 1, c, k);
    }
}

pub proof fn lemma_next_nl(t: Seq<char>, i: int)
    requires
        0 <= i <= t.len(),
    ensures
        i <= next_nl(t, i) <= t.len(),
        next_nl(t, i) < t.len() ==> t[next_nl(t, i)] == '\n',
        forall|j: int| i <= j < next_nl(t, i) ==> t[j] != '\n',
{
    lemma_find(t, i, '\n');
}

/// Scan `cs[i..end]` for `c`: where the first one is, or `end`.
pub fn find_in(cs: &Vec<char>, i: usize, end: usize, c: char) -> (k: usize)
    requires
        i <= end <= cs@.len(),
    ensures
        i <= k <= end,
        forall|j: int| i <= j < k ==> cs@[j] != c,
        k < end ==> cs@[k as int] == c,
{
    let mut k = i;
    while k < end && cs[k] != c
        invariant
            i <= k <= end <= cs@.len(),
            forall|j: int| i <= j < k ==> cs@[j] != c,
        decreases end - k,
    {
        k = k + 1;
    }
    k
}

/// The pieces of `s` from `i` on between the `c`s, as `str::split`
/// gives them: always at least one, empty ones kept.
pub open spec fn pieces_from(s: Seq<char>, i: int, c: char) -> Seq<Seq<char>>
    decreases s.len() + 1 - i,
{
    if i < 0 || i > s.len() {
        Seq::empty()
    } else {
        proof {
            lemma_find(s, i, c);
        }
        let k = find(s, i, c);
        if k >= s.len() {
            seq![s.subrange(i, s.len() as int)]
        } else {
            seq![s.subrange(i, k)] + pieces_from(s, k + 1, c)
        }
    }
}

pub open spec fn split(s: Seq<char>, c: char) -> Seq<Seq<char>> {
    pieces_from(s, 0, c)
}

/// Where the pieces of `cs[lo..hi]` between the `c`s are.
pub fn split_ranges(cs: &Vec<char>, lo: usize, hi: usize, c: char) -> (r: Vec<(usize, usize)>)
    requires
        lo <= hi <= cs@.len(),
    ensures
        r@.len() == split(cs@.subrange(lo as int, hi as int), c).len(),
        forall|k: int|
            0 <= k < r@.len() ==> lo <= (#[trigger] r@[k]).0 <= r@[k].1 <= hi && cs@.subrange(
                r@[k].0 as int,
                r@[k].1 as int,
            ) == split(cs@.subrange(lo as int, hi as int), c)[k],
{
    let ghost s = cs@.subrange(lo as int, hi as int);
    let mut r: Vec<(usize, usize)> = Vec::new();
    let ghost mut done: Seq<Seq<char>> = Seq::empty();
    let mut i = lo;
    loop
        invariant
            s == cs@.subrange(lo as int, hi as int),
            lo <= i <= hi <= cs@.len(),
            split(s, c) == done + pieces_from(s, i - lo, c),
            r@.len() == done.len(),
            forall|k: int|
                0 <= k < r@.len() ==> lo <= (#[trigger] r@[k]).0 <= r@[k].1 <= hi
                    && cs@.subrange(r@[k].0 as int, r@[k].1 as int) == done[k],
        decreases hi - i,
    {
        let k = find_in(cs, i, hi, c);
        proof {
            assert forall|j: int| i - lo <= j < k - lo implies s[j] != c by {
                assert(s[j] == cs@[j + lo]);
            }
            if k < hi {
                assert(s[k - lo] == cs@[k as int]);
            }
            lemma_find_is(s, i - lo, c, k - lo);
            assert(s.subrange(i - lo, k - lo) =~= cs@.subrange(i as int, k as int));
        }
        r.push((i, k));
        proof {
            done = done.push(cs@.subrange(i as int, k as int));
        }
        if k >= hi {
            assert(split(s, c) =~= done);
            return r;
        }
        i = k + 1;
    }
}

/// Whether two string slices hold the same characters.
pub fn same_str(a: &str, b: &str) -> (r: bool)
    ensures
        r == (a@ == b@),
{
    let x = a.to_owned();
    let y = b.to_owned();
    x.eq(&y)
}

/// Whether two strings hold the same characters.
pub fn same_text(a: &String, b: &String) -> (r: bool)
    ensures
        r == (a@ == b@),
{
    a.eq(b)
}

/// Lines, each with its newline after it.
pub open spec fn joined(ls: Seq<Seq<char>>) -> Seq<char>
    decreases ls.len(),
{
    if ls.len() == 0 {
        Seq::empty()
    } else {
        joined(ls.drop_last()) + ls.last() + seq!['\n']
    }
}

/// A line `str::lines` gives back as it is: no newline in it, and no
/// carriage return at its end.
pub open spec fn plain_line(l: Seq<char>) -> bool {
    &&& forall|k: int| 0 <= k < l.len() ==> #[trigger] l[k] != '\n'
    &&& l.len() > 0 ==> l.last() != '\r'
}

pub proof fn lemma_joined_add(a: Seq<Seq<char>>, b: Seq<Seq<char>>)
    ensures
        joined(a + b) == joined(a) + joined(b),
    decreases b.len(),
{
    if b.len() == 0 {
        assert(a + b =~= a);
        assert(joined(a) + joined(b) =~= joined(a));
    } else {
        lemma_joined_add(a, b.drop_last());
        assert((a + b).drop_last() =~= a + b.drop_last());
        assert((a + b).last() == b.last());
        assert(joined(a + b) =~= joined(a) + joined(b));
    }
}

proof fn lemma_lines_of_joined_from(ls: Seq<Seq<char>>, k: int)
    requires
        0 <= k <= ls.len(),
        forall|j: int| 0 <= j < ls.len() ==> plain_line(#[trigger] ls[j]),
    ensures
        lines_from(joined(ls), joined(ls.take(k)).len() as int) == ls.skip(k),
    decreases ls.len() - k,
{
    let t = joined(ls);
    lemma_joined_add(ls.take(k), ls.skip(k));
    assert(ls.take(k) + ls.skip(k) =~= ls);
    let o = joined(ls.take(k)).len() as int;
    if k == ls.len() {
        assert(ls.skip(k) =~= Seq::<Seq<char>>::empty());
        assert(joined(ls.skip(k)) =~= Seq::<char>::empty());
        assert(o == t.len());
    } else {
        let x = ls[k];
        let rest = ls.skip(k + 1);
        assert(ls.skip(k) =~= seq![x] + rest);
        lemma_joined_add(seq![x], rest);
        assert(seq![x].drop_last() =~= Seq::<Seq<char>>::empty());
        assert(joined(Seq::<Seq<char>>::empty()) == Seq::<char>::empty());
        assert(seq![x].last() == x);
        assert(joined(seq![x]) =~= Seq::<char>::empty() + x + seq!['\n']);
        assert(joined(seq![x]) =~= x + seq!['\n']);
        let e = o + x.len();
        assert(t =~= joined(ls.take(k)) + (x + seq!['\n'] + joined(rest)));
        assert forall|j: int| o <= j < e implies t[j] != '\n' by {
            assert(t[j] == x[j - o]);
        }
        assert(t[e] == '\n');
        lemma_find_is(t, o, '\n', e);
        assert(t.subrange(o, e) =~= x);
        if e > o {
            assert(t[e - 1] == x.last());
        }
        assert(line_at(t, o) == x);
        lemma_lines_of_joined_from(ls, k + 1);
        assert(ls.take(k + 1) =~= ls.take(k).push(x));
        lemma_joined_add(ls.take(k), seq![x]);
        assert(ls.take(k) + seq![x] =~= ls.take(k + 1));
        assert(joined(ls.take(k + 1)).len() == e + 1);
        assert(ls.skip(k) =~= seq![x] + ls.skip(k + 1));
    }
}

/// Plain lines joined with newlines read back as those lines, one each.
pub proof fn lemma_lines_of_joined(ls: Seq<Seq<char>>)
    requires
        forall|j: int| 0 <= j < ls.len() ==> plain_line(#[trigger] ls[j]),
    ensures
        lines(joined(ls)) == ls,
{
    lemma_lines_of_joined_from(ls, 0);
    assert(ls.take(0) =~= Seq::<Seq<char>>::empty());
    assert(ls.skip(0) =~= ls);
}

/// Pieces with one `c` between each two.
pub open spec fn sep_joined(ps: Seq<Seq<char>>, c: char) -> Seq<char>
    decreases ps.len(),
{
    if ps.len() <= 1 {
        if ps.len() == 1 {
            ps[0]
        } else {
            Seq::empty()
        }
    } else {
        sep_joined(ps.drop_last(), c) + seq![c] + ps.last()
    }
}

proof fn lemma_sep_joined_prefix(ps: Seq<Seq<char>>, c: char, k: int)
    requires
        1 <= k < ps.len(),
    ensures
        sep_joined(ps, c) == sep_joined(ps.take(k), c) + seq![c] + sep_joined(ps.skip(k), c),
    decreases ps.len(),
{
    if k == ps.len() - 1 {
        assert(ps.take(k) =~= ps.drop_last());
        assert(ps.skip(k) =~= seq![ps.last()]);
        assert(sep_joined(ps.skip(k), c) == ps.last());
    } else {
        lemma_sep_joined_prefix(ps.drop_last(), c, k);
        assert(ps.drop_last().take(k) =~= ps.take(k));
        let r = ps.skip(k);
        assert(ps.drop_last().skip(k) =~= r.drop_last());
        assert(r.len() >= 2);
        assert(r.last() == ps.last());
        assert(sep_joined(r, c) == sep_joined(r.drop_last(), c) + seq![c] + r.last());
        assert(sep_joined(ps, c) =~= sep_joined(ps.take(k), c) + seq![c] + sep_joined(r, c));
    }
}

proof fn lemma_sep_joined_first(ps: Seq<Seq<char>>, c: char)
    requires
        ps.len() >= 2,
    ensures
        sep_joined(ps, c) == ps[0] + seq![c] + sep_joined(ps.skip(1), c),
{
    lemma_sep_joined_prefix(ps, c, 1);
    assert(ps.take(1) =~= seq![ps[0]]);
    assert(sep_joined(seq![ps[0]], c) == ps[0]);
}

pub proof fn lemma_split_sep_joined(ps: Seq<Seq<char>>, c: char)
    requires
        ps.len() >= 1,
        forall|j: int, k: int| 0 <= j < ps.len() && 0 <= k < ps[j].len() ==> #[trigger] ps[j][k] != c,
    ensures
        split(sep_joined(ps, c), c) == ps,
    decreases ps.len(),
{
    let t = sep_joined(ps, c);
    let x = ps[0];
    assert forall|k: int| 0 <= k < x.len() implies x[k] != c by {
        assert(ps[0][k] != c);
    }
    if ps.len() == 1 {
        assert(t == x);
        lemma_find_is(t, 0, c, t.len() as int);
        assert(t.subrange(0, t.len() as int) =~= t);
        assert(split(t, c) =~= seq![x]);
        assert(ps =~= seq![x]);
    } else {
        let rest = ps.skip(1);
        lemma_sep_joined_first(ps, c);
        let tr = sep_joined(rest, c);
        assert(t =~= x + seq![c] + tr);
        let n = x.len() as int;
        assert forall|j: int| 0 <= j < n implies t[j] != c by {
            assert(t[j] == x[j]);
        }
        assert(t[n] == c);
        lemma_find_is(t, 0, c, n);
        assert(t.subrange(0, n) =~= x);
        assert forall|j: int, k: int| 0 <= j < rest.len() && 0 <= k < rest[j].len() implies #[trigger] rest[j][k] != c by {
            assert(rest[j] == ps[j + 1]);
        }
        lemma_split_sep_joined(rest, c);
        lemma_pieces_shift(x + seq![c], tr, c);
        assert(ps =~= seq![x] + rest);
    }
}

/// Splitting after a prefix that ends in the separator reads the rest as
/// if on its own.
proof fn lemma_pieces_shift(p: Seq<char>, r: Seq<char>, c: char)
    requires
        p.len() >= 1,
    ensures
        pieces_from(p + r, p.len() as int, c) == split(r, c),
{
    lemma_pieces_shift_at(p, r, c, 0);
}

proof fn lemma_pieces_shift_at(p: Seq<char>, r: Seq<char>, c: char, i: int)
    requires
        0 <= i <= r.len(),
    ensures
        pieces_from(p + r, p.len() + i, c) == pieces_from(r, i, c),
    decreases r.len() - i,
{
    let t = p + r;
    let o = p.len() as int;
    lemma_find(r, i, c);
    let k = find(r, i, c);
    assert forall|j: int| o + i <= j < o + k implies t[j] != c by {
        assert(t[j] == r[j - o]);
    }
    if k < r.len() {
        assert(t[o + k] == r[k]);
    }
    lemma_find_is(t, o + i, c, o + k);
    if k >= r.len() {
        assert(t.subrange(o + i, t.len() as int) =~= r.subrange(i, r.len() as int));
    } else {
        assert(t.subrange(o + i, o + k) =~= r.subrange(i, k));
        lemma_pieces_shift_at(p, r, c, k + 1);
    }
}

pub fn is_space_char(c: char) -> (b: bool)
    ensures
        b == is_space(c),
{
    let v = c as u32;
    (9 <= v && v <= 13) || v == 32 || v == 0x85 || v == 0xa0 || v == 0x1680 || (0x2000 <= v && v
        <= 0x200a) || v == 0x2028 || v == 0x2029 || v == 0x202f || v == 0x205f || v == 0x3000
}

/// The characters of `s`, one by one.
pub fn chars_of(s: &str) -> (v: Vec<char>)
    ensures
        v@ == s@,
{
    let mut v: Vec<char> = Vec::new();
    for c in it: s.chars()
        invariant
            v@ == it.history@,
    {
        v.push(c);
    }
    assert(v@ =~= s@);
    v
}

/// `cs[lo..hi]` as a string.
pub fn string_of(cs: &Vec<char>, lo: usize, hi: usize) -> (s: String)
    requires
        lo <= hi <= cs@.len(),
    ensures
        s@ == cs@.subrange(lo as int, hi as int),
{
    let mut v: Vec<char> = Vec::new();
    let mut k = lo;
    while k < hi
        invariant
            lo <= k <= hi <= cs@.len(),
            v@ == cs@.subrange(lo as int, k as int),
        decreases hi - k,
    {
        v.push(cs[k]);
        k = k + 1;
        assert(v@ =~= cs@.subrange(lo as int, k as int));
    }
    from_chars(v)
}

/// Where `cs[lo..hi]` is once `str::trim` has had it.
pub fn trim_range(cs: &Vec<char>, lo: usize, hi: usize) -> (r: (usize, usize))
    requires
        lo <= hi <= cs@.len(),
    ensures
        lo <= r.0 <= r.1 <= hi,
        cs@.subrange(r.0 as int, r.1 as int) == trim(cs@.subrange(lo as int, hi as int)),
{
    let mut a = lo;
    while a < hi && is_space_char(cs[a])
        invariant
            lo <= a <= hi <= cs@.len(),
            trim_start(cs@.subrange(a as int, hi as int)) == trim_start(
                cs@.subrange(lo as int, hi as int),
            ),
        decreases hi - a,
    {
        assert(cs@.subrange(a as int, hi as int).drop_first() =~= cs@.subrange(
            a + 1,
            hi as int,
        ));
        a = a + 1;
    }
    let mut b = hi;
    while b > a && is_space_char(cs[b - 1])
        invariant
            lo <= a <= b <= hi <= cs@.len(),
            trim_end(cs@.subrange(a as int, b as int)) == trim_end(
                cs@.subrange(a as int, hi as int),
            ),
        decreases b - a,
    {
        assert(cs@.subrange(a as int, b as int).drop_last() =~= cs@.subrange(
            a as int,
            b - 1,
        ));
        b = b - 1;
    }
    (a, b)
}

pub open spec fn digit(d: nat) -> char {
    ((d + 48) as u32) as char
}

/// `n` in decimal, as `Display` writes it: no sign, no leading zeros.
pub open spec fn dec(n: nat) -> Seq<char>
    decreases n,
{
    if n < 10 {
        seq![digit(n)]
    } else {
        dec(n / 10) + seq![digit(n % 10)]
    }
}

/// Append `n` in decimal.
pub fn push_dec(v: &mut Vec<char>, n: u64)
    ensures
        final(v)@ == old(v)@ + dec(n as nat),
    decreases n,
{
    if n >= 10 {
        push_dec(v, n / 10);
    }
    let d = (n % 10) as u8;
    v.push((d + 48) as char);
}

/// Append the characters of `s`.
pub fn push_str(v: &mut Vec<char>, s: &str)
    ensures
        final(v)@ == old(v)@ + s@,
{
    let cs = chars_of(s);
    let mut k: usize = 0;
    while k < cs.len()
        invariant
            k <= cs@.len(),
            v@ == old(v)@ + cs@.take(k as int),
        decreases cs.len() - k,
    {
        v.push(cs[k]);
        k = k + 1;
        assert(v@ =~= old(v)@ + cs@.take(k as int));
    }
    assert(cs@.take(k as int) =~= s@);
}

/// The first whitespace at or after `i`, or the end.
pub open spec fn word_end(t: Seq<char>, i: int) -> int
    decreases t.len() - i,
{
    if i >= t.len() || is_space(t[i]) {
        if i >= t.len() { t.len() as int } else { i }
    } else {
        word_end(t, i + 1)
    }
}

/// The first non-whitespace at or after `i`, or the end.
pub open spec fn word_start(t: Seq<char>, i: int) -> int
    decreases t.len() - i,
{
    if i >= t.len() {
        t.len() as int
    } else if !is_space(t[i]) {
        i
    } else {
        word_start(t, i + 1)
    }
}

pub proof fn lemma_word_start(t: Seq<char>, i: int)
    requires
        0 <= i <= t.len(),
    ensures
        i <= word_start(t, i) <= t.len(),
        word_start(t, i) < t.len() ==> !is_space(t[word_start(t, i)]),
        forall|j: int| i <= j < word_start(t, i) ==> is_space(t[j]),
    decreases t.len() - i,
{
    if i < t.len() && is_space(t[i]) {
        lemma_word_start(t, i + 1);
    }
}

pub proof fn lemma_word_end(t: Seq<char>, i: int)
    requires
        0 <= i <= t.len(),
    ensures
        i <= word_end(t, i) <= t.len(),
        word_end(t, i) < t.len() ==> is_space(t[word_end(t, i)]),
        forall|j: int| i <= j < word_end(t, i) ==> !is_space(t[j]),
    decreases t.len() - i,
{
    if i < t.len() && !is_space(t[i]) {
        lemma_word_end(t, i + 1);
    }
}

/// The words of `t` from `i` on, as `str::split_whitespace` gives them.
pub open spec fn words_from(t: Seq<char>, i: int) -> Seq<Seq<char>>
    decreases t.len() + 1 - i,
{
    if i < 0 || i > t.len() {
        Seq::empty()
    } else {
        proof {
            lemma_word_start(t, i);
        }
        let a = word_start(t, i);
        if a >= t.len() {
            Seq::empty()
        } else {
            proof {
                lemma_word_end(t, a);
            }
            let b = word_end(t, a);
            seq![t.subrange(a, b)] + words_from(t, b)
        }
    }
}

pub open spec fn words(t: Seq<char>) -> Seq<Seq<char>> {
    words_from(t, 0)
}

/// The next word of `cs` at or after `i`: where it starts and ends, or
/// `None` when only whitespace is left.
pub fn next_word(cs: &Vec<char>, i: usize) -> (r: Option<(usize, usize)>)
    requires
        i <= cs@.len(),
    ensures
        match r {
            Some((a, b)) => words_from(cs@, i as int) == seq![cs@.subrange(a as int, b as int)]
                + words_from(cs@, b as int) && i <= a < b <= cs@.len(),
            None => words_from(cs@, i as int) == Seq::<Seq<char>>::empty(),
        },
{
    let n = cs.len();
    let mut a = i;
    while a < n && is_space_char(cs[a])
        invariant
            i <= a <= n == cs@.len(),
            forall|j: int| i <= j < a ==> is_space(cs@[j]),
        decreases n - a,
    {
        a = a + 1;
    }
    proof {
        lemma_word_start(cs@, i as int);
        lemma_word_start_is(cs@, i as int, a as int);
    }
    if a >= n {
        return None;
    }
    let mut b = a;
    while b < n && !is_space_char(cs[b])
        invariant
            a <= b <= n == cs@.len(),
            forall|j: int| a <= j < b ==> !is_space(cs@[j]),
        decreases n - b,
    {
        b = b + 1;
    }
    proof {
        lemma_word_end_is(cs@, a as int, b as int);
    }
    Some((a, b))
}

pub proof fn lemma_word_start_is(t: Seq<char>, i: int, a: int)
    requires
        0 <= i <= a <= t.len(),
        forall|j: int| i <= j < a ==> is_space(t[j]),
        a < t.len() ==> !is_space(t[a]),
    ensures
        word_start(t, i) == a,
    decreases a - i,
{
    if i < a {
        lemma_word_start_is(t, i + 1, a);
    }
}

pub proof fn lemma_word_end_is(t: Seq<char>, a: int, b: int)
    requires
        0 <= a <= b <= t.len(),
        forall|j: int| a <= j < b ==> !is_space(t[j]),
        b < t.len() ==> is_space(t[b]),
    ensures
        word_end(t, a) == b,
    decreases b - a,
{
    if a < b {
        lemma_word_end_is(t, a + 1, b);
    }
}

pub proof fn lemma_dec(n: nat)
    ensures
        dec(n).len() >= 1,
        all_digits(dec(n)),
        digits_value(dec(n)) == n,
        forall|k: int| 0 <= k < dec(n).len() ==> !is_space(#[trigger] dec(n)[k]),
        dec(n)[0] != '+',
    decreases n,
{
    if n >= 10 {
        lemma_dec(n / 10);
        let d = dec(n);
        assert(d.drop_last() =~= dec(n / 10));
        assert(d.last() == digit(n % 10));
        assert(((digit(n % 10) as u32) - 48) as nat == n % 10);
        assert(digits_value(d) == digits_value(d.drop_last()) * 10 + ((d.last() as u32) - 48) as nat);
        assert(digits_value(d) == digits_value(dec(n / 10)) * 10 + (n % 10));
        assert((n / 10) * 10 + n % 10 == n) by (nonlinear_arith);
        assert(digits_value(d) == n);
        assert(d[0] == dec(n / 10)[0]);
    } else {
        assert(((digit(n) as u32) - 48) as nat == n);
        assert(dec(n).drop_last() =~= Seq::<char>::empty());
        assert(digits_value(Seq::<char>::empty()) == 0);
        assert(digits_value(dec(n)) == n);
    }
}

/// Two words with a space between and only whitespace after.
pub proof fn lemma_two_words(x: Seq<char>, y: Seq<char>, tail: Seq<char>)
    requires
        x.len() >= 1,
        y.len() >= 1,
        forall|k: int| 0 <= k < x.len() ==> !is_space(#[trigger] x[k]),
        forall|k: int| 0 <= k < y.len() ==> !is_space(#[trigger] y[k]),
        forall|k: int| 0 <= k < tail.len() ==> is_space(#[trigger] tail[k]),
    ensures
        words(x + " "@ + y + tail) == seq![x, y],
{
    reveal_strlit(" ");
    let t = x + " "@ + y + tail;
    let n = x.len() as int;
    let m = y.len() as int;
    let e = tail.len() as int;
    assert(t.len() == n + m + 1 + e);
    assert forall|k: int| 0 <= k < n implies t[k] == x[k] by {}
    assert(t[n] == ' ');
    assert forall|k: int| 0 <= k < m implies t[n + 1 + k] == y[k] by {}
    assert forall|k: int| 0 <= k < e implies t[n + 1 + m + k] == tail[k] by {}
    lemma_word_start_is(t, 0, 0);
    assert forall|j: int| 0 <= j < n implies !is_space(t[j]) by {
        assert(t[j] == x[j]);
    }
    lemma_word_end_is(t, 0, n);
    assert(t.subrange(0, n) =~= x);
    lemma_word_start_is(t, n, n + 1);
    assert forall|j: int| n + 1 <= j < n + 1 + m implies !is_space(t[j]) by {
        assert(t[j] == y[j - n - 1]);
    }
    if e > 0 {
        assert(is_space(t[n + 1 + m])) by {
            assert(t[n + 1 + m] == tail[0]);
        }
    }
    lemma_word_end_is(t, n + 1, n + 1 + m);
    assert(t.subrange(n + 1, n + 1 + m) =~= y);
    assert forall|j: int| n + 1 + m <= j < t.len() implies is_space(t[j]) by {
        assert(t[j] == tail[j - n - 1 - m]);
    }
    lemma_word_start_is(t, n + 1 + m, t.len() as int);
    assert(words_from(t, n + 1 + m) =~= Seq::<Seq<char>>::empty());
    assert(words_from(t, n) =~= seq![y]);
    assert(words(t) =~= seq![x, y]);
}

pub open spec fn is_digit_char(c: char) -> bool {
    48 <= c as u32 <= 57
}

/// The number the decimal digits `d` spell.
pub open spec fn digits_value(d: Seq<char>) -> nat
    decreases d.len(),
{
    if d.len() == 0 {
        0
    } else {
        digits_value(d.drop_last()) * 10 + ((d.last() as u32) - 48) as nat
    }
}

pub open spec fn all_digits(d: Seq<char>) -> bool {
    forall|k: int| 0 <= k < d.len() ==> is_digit_char(#[trigger] d[k])
}

/// What follows an optional leading `+`.
pub open spec fn unsigned_part(s: Seq<char>) -> Seq<char> {
    if s.len() > 0 && s[0] == '+' {
        s.drop_first()
    } else {
        s
    }
}

/// `str::parse::<u32>`: an optional `+`, then one or more decimal digits
/// whose value fits.
pub open spec fn parse_u32(s: Seq<char>) -> Option<u32> {
    if unsigned_part(s).len() == 0 || !all_digits(unsigned_part(s)) {
        None
    } else if digits_value(unsigned_part(s)) > u32::MAX {
        None
    } else {
        Some(digits_value(unsigned_part(s)) as u32)
    }
}

proof fn lemma_digits_grow(d: Seq<char>, k: int)
    requires
        0 <= k <= d.len(),
        all_digits(d),
    ensures
        digits_value(d) >= digits_value(d.take(k)),
    decreases d.len() - k,
{
    if k < d.len() {
        lemma_digits_grow(d, k + 1);
        assert(d.take(k + 1).drop_last() =~= d.take(k));
    } else {
        assert(d.take(k) =~= d);
    }
}

/// `cs[a..b]` read as a `u32`, as `str::parse` reads it.
pub fn parse_u32_at(cs: &Vec<char>, a: usize, b: usize) -> (r: Option<u32>)
    requires
        a <= b <= cs@.len(),
    ensures
        r == parse_u32(cs@.subrange(a as int, b as int)),
{
    let ghost s = cs@.subrange(a as int, b as int);
    let mut i = a;
    if i < b && cs[i] == '+' {
        i = i + 1;
    }
    let ghost d = cs@.subrange(i as int, b as int);
    assert(d =~= unsigned_part(s));
    if i == b {
        return None;
    }
    let mut acc: u64 = 0;
    let mut k = i;
    while k < b
        invariant
            a <= i < b,
            i <= k <= b <= cs@.len(),
            s == cs@.subrange(a as int, b as int),
            d == cs@.subrange(i as int, b as int),
            d == unsigned_part(s),
            acc == digits_value(d.take(k - i)),
            acc <= u32::MAX,
            forall|j: int| 0 <= j < k - i ==> is_digit_char(#[trigger] d[j]),
        decreases b - k,
    {
        let c = cs[k];
        let v = c as u32;
        assert(d[k - i] == c);
        if !(48 <= v && v <= 57) {
            assert(!is_digit_char(d[k - i]));
            assert(!all_digits(d));
            return None;
        }
        proof {
            assert(d.take(k - i + 1).drop_last() =~= d.take(k - i));
            assert(d.take(k - i + 1).last() == c);
        }
        acc = acc * 10 + (v - 48) as u64;
        k = k + 1;
        if acc > 4294967295 {
            proof {
                if all_digits(d) {
                    lemma_digits_grow(d, k - i);
                }
            }
            return None;
        }
    }
    assert(d.take(k - i) =~= d);
    Some(acc as u32)
}

/// `String::from_iter` over characters: the string of exactly these.
#[verifier::external_body]
pub(crate) fn from_chars(v: Vec<char>) -> (s: String)
    ensures
        s@ == v@,
{
    String::from_iter(v)
}

} // verus!
