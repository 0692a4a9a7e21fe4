//! The applications this person has actually opened, for the shell's
//! new-tab page: one line per application, `url` and `name` apart by a
//! tab, the newest first, ten at most.
//!
//! Reading and writing the file is the caller's; what the file says, what
//! remembering one more does to the list, and the text written back are
//! here.

use vstd::prelude::*;

use crate::text::{
    chars_of, find, find_in, same_text, from_chars, lemma_find_is, lemma_next_nl, line_at, lines,
    lines_from, string_of, trim, trim_range, joined, plain_line, lemma_lines_of_joined,
};

verus! {

/// How many are kept. The eleventh drops the oldest.
pub const KEEP: usize = 10;

/// An application worth offering again.
#[derive(Debug, PartialEq, Eq)]
pub struct Recent {
    /// The session URL, whole: what opening it needs.
    pub url: String,
    /// What to call it: the manifest's name where the session gave one.
    pub name: String,
}

impl View for Recent {
    type V = (Seq<char>, Seq<char>);

    open spec fn view(&self) -> (Seq<char>, Seq<char>) {
        (self.url@, self.name@)
    }
}

impl Clone for Recent {
    fn clone(&self) -> (r: Recent)
        ensures
            r@ == self@,
    {
        Recent { url: self.url.clone(), name: self.name.clone() }
    }
}

pub open spec fn views(v: Seq<Recent>) -> Seq<(Seq<char>, Seq<char>)> {
    v.map_values(|r: Recent| r@)
}

/// The entry a line is: `url` and `name` either side of its first tab,
/// each trimmed. A line with no tab, or with nothing before it, is none.
pub open spec fn entry_of(line: Seq<char>) -> Option<(Seq<char>, Seq<char>)> {
    let j = find(line, 0, '\t');
    if j >= line.len() {
        None
    } else if trim(line.subrange(0, j)).len() == 0 {
        None
    } else {
        Some((trim(line.subrange(0, j)), trim(line.subrange(j + 1, line.len() as int))))
    }
}

pub open spec fn entry_fn() -> spec_fn(Seq<char>) -> Option<(Seq<char>, Seq<char>)> {
    |line: Seq<char>| entry_of(line)
}

/// At most the first [`KEEP`].
pub open spec fn keep<T>(s: Seq<T>) -> Seq<T> {
    if s.len() <= KEEP {
        s
    } else {
        s.take(KEEP as int)
    }
}

/// What the file says: each line that is an entry, in order, the first
/// ten of them.
pub open spec fn parsed(t: Seq<char>) -> Seq<(Seq<char>, Seq<char>)> {
    keep(lines(t).filter_map(entry_fn()))
}

/// A tab, a newline or a carriage return: what would split an entry.
pub open spec fn breaks(c: char) -> bool {
    c == '\t' || c == '\n' || c == '\r'
}

pub open spec fn cleaned(s: Seq<char>) -> Seq<char> {
    s.filter(|c: char| !breaks(c))
}

/// The list once `url` has been opened under `name`: it first, every
/// other entry for `url` gone, the rest in their order, ten at most.
pub open spec fn remembered(l: Seq<(Seq<char>, Seq<char>)>, url: Seq<char>, name: Seq<char>) -> Seq<
    (Seq<char>, Seq<char>),
> {
    keep(seq![(url, name)] + l.filter(other_than(url)))
}

/// An entry for some other address than `url`.
pub open spec fn other_than(url: Seq<char>) -> spec_fn((Seq<char>, Seq<char>)) -> bool {
    |e: (Seq<char>, Seq<char>)| e.0 != url
}

/// The file's text for a list: one line each, both fields cleaned.
pub open spec fn body_text(l: Seq<(Seq<char>, Seq<char>)>) -> Seq<char>
    decreases l.len(),
{
    if l.len() == 0 {
        Seq::empty()
    } else {
        body_text(l.drop_last()) + cleaned(l.last().0) + seq!['\t'] + cleaned(l.last().1) + seq![
            '\n',
        ]
    }
}

proof fn lemma_keep_push<T>(s: Seq<T>, more: Seq<T>)
    requires
        more.len() <= 1,
    ensures
        keep(s + more) == if keep(s).len() < KEEP {
            keep(s) + more
        } else {
            keep(s)
        },
{
    if s.len() >= KEEP {
        assert((s + more).take(KEEP as int) =~= s.take(KEEP as int));
    }
}

proof fn lemma_filter_map_push<A, B>(s: Seq<A>, x: A, f: spec_fn(A) -> Option<B>)
    ensures
        s.push(x).filter_map(f) == match f(x) {
            Some(y) => s.filter_map(f) + seq![y],
            None => s.filter_map(f),
        },
{
    assert(s.push(x).drop_last() =~= s);
}

/// The entries of a file's text, the newest first, ten at most. A line
/// that does not parse costs only itself.
pub fn parse(text: &str) -> (out: Vec<Recent>)
    ensures
        views(out@) == parsed(text@),
        out@.len() <= KEEP,
{
    let cs = chars_of(text);
    let ghost t = cs@;
    let n = cs.len();
    let mut out: Vec<Recent> = Vec::new();
    let ghost mut done: Seq<Seq<char>> = Seq::empty();
    let mut i: usize = 0;
    while i < n
        invariant
            t == cs@,
            n == t.len(),
            i <= n,
            lines(t) == done + lines_from(t, i as int),
            views(out@) == keep(done.filter_map(entry_fn())),
        decreases n - i,
    {
        let k = find_in(&cs, i, n, '\n');
        proof {
            lemma_find_is(t, i as int, '\n', k as int);
        }
        let e = if k < n && k > i && cs[k - 1] == '\r' {
            k - 1
        } else {
            k
        };
        let ghost line = t.subrange(i as int, e as int);
        assert(line == line_at(t, i as int));
        let j = find_in(&cs, i, e, '\t');
        proof {
            lemma_find_is(line, 0, '\t', j - i);
            assert(line.subrange(0, j - i) =~= t.subrange(i as int, j as int));
            if j < e {
                assert(line.subrange(j - i + 1, line.len() as int) =~= t.subrange(
                    j + 1,
                    e as int,
                ));
            }
            lemma_filter_map_push(done, line, entry_fn());
        }
        let ghost before = out@;
        if j < e {
            let (ua, ub) = trim_range(&cs, i, j);
            if ua < ub {
                let (na, nb) = trim_range(&cs, j + 1, e);
                if out.len() < KEEP {
                    let r = Recent { url: string_of(&cs, ua, ub), name: string_of(&cs, na, nb) };
                    out.push(r);
                }
            }
        }
        proof {
            let more: Seq<(Seq<char>, Seq<char>)> = match entry_of(line) {
                Some(y) => seq![y],
                None => Seq::empty(),
            };
            lemma_keep_push(done.filter_map(entry_fn()), more);
            assert(views(out@) =~= keep(done.push(line).filter_map(entry_fn())));
            lemma_next_nl(t, i as int);
            assert(lines_from(t, i as int) == seq![line_at(t, i as int)] + lines_from(
                t,
                k + 1,
            ));
            if k >= n {
                assert(lines_from(t, k + 1) =~= lines_from(t, n as int));
            }
            done = done.push(line);
        }
        if k < n {
            i = k + 1;
        } else {
            i = n;
        }
    }
    assert(lines_from(t, i as int) =~= Seq::<Seq<char>>::empty());
    assert(done =~= lines(t));
    out
}

/// `s` with every tab, newline and carriage return taken out, so that a
/// field can never make a second line of one entry.
pub fn clean(s: &str) -> (out: String)
    ensures
        out@ == cleaned(s@),
{
    let cs = chars_of(s);
    let mut v: Vec<char> = Vec::new();
    let mut k: usize = 0;
    while k < cs.len()
        invariant
            cs@ == s@,
            k <= cs@.len(),
            v@ == cleaned(cs@.take(k as int)),
        decreases cs.len() - k,
    {
        let c = cs[k];
        proof {
            reveal(Seq::filter);
            assert(cs@.take(k + 1).drop_last() =~= cs@.take(k as int));
        }
        if !(c == '\t' || c == '\n' || c == '\r') {
            v.push(c);
        }
        k = k + 1;
    }
    assert(cs@.take(k as int) =~= cs@);
    from_chars(v)
}

/// The list once `url` has been opened under `name`: it goes first, any
/// other entry for the same address goes, and the eleventh falls off.
pub fn remember(list: &Vec<Recent>, url: &str, name: &str) -> (out: Vec<Recent>)
    ensures
        views(out@) == remembered(views(list@), url@, name@),
{
    let u = url.to_owned();
    let mut out: Vec<Recent> = Vec::new();
    out.push(Recent { url: url.to_owned(), name: name.to_owned() });
    let ghost f = other_than(url@);
    let mut k: usize = 0;
    while k < list.len()
        invariant
            u@ == url@,
            f == other_than(url@),
            k <= list@.len(),
            views(out@) == keep(seq![(url@, name@)] + views(list@).take(k as int).filter(f)),
        decreases list.len() - k,
    {
        let ghost s = seq![(url@, name@)] + views(list@).take(k as int).filter(f);
        let keepit = !same_text(&list[k].url, &u);
        let ghost more: Seq<(Seq<char>, Seq<char>)> = if keepit {
            seq![list@[k as int]@]
        } else {
            Seq::empty()
        };
        proof {
            reveal(Seq::filter);
            let t = views(list@).take(k + 1);
            assert(t.drop_last() =~= views(list@).take(k as int));
            assert(t.last() == list@[k as int]@);
            assert(f(t.last()) == keepit);
            assert(t.filter(f) =~= views(list@).take(k as int).filter(f) + more);
            lemma_keep_push(s, more);
            assert(seq![(url@, name@)] + views(list@).take(k + 1).filter(f) =~= s + more);
        }
        if keepit && out.len() < KEEP {
            out.push(list[k].clone());
        }
        assert(views(out@) =~= keep(s + more));
        k = k + 1;
    }
    assert(views(list@).take(k as int) =~= views(list@));
    out
}

/// The text the list is kept as.
pub fn body(list: &Vec<Recent>) -> (out: String)
    ensures
        out@ == body_text(views(list@)),
{
    let mut v: Vec<char> = Vec::new();
    let mut k: usize = 0;
    while k < list.len()
        invariant
            k <= list@.len(),
            v@ == body_text(views(list@).take(k as int)),
        decreases list.len() - k,
    {
        let url = chars_of(list[k].url.as_str());
        let name = chars_of(list[k].name.as_str());
        let ghost start = v@;
        let mut a: usize = 0;
        while a < url.len()
            invariant
                a <= url@.len(),
                v@ == start + cleaned(url@.take(a as int)),
            decreases url.len() - a,
        {
            proof {
                reveal(Seq::filter);
                assert(url@.take(a + 1).drop_last() =~= url@.take(a as int));
            }
            let c = url[a];
            if !(c == '\t' || c == '\n' || c == '\r') {
                v.push(c);
            }
            a = a + 1;
            assert(v@ =~= start + cleaned(url@.take(a as int)));
        }
        assert(url@.take(a as int) =~= url@);
        v.push('\t');
        let ghost mid = v@;
        let mut b: usize = 0;
        while b < name.len()
            invariant
                b <= name@.len(),
                v@ == mid + cleaned(name@.take(b as int)),
            decreases name.len() - b,
        {
            proof {
                reveal(Seq::filter);
                assert(name@.take(b + 1).drop_last() =~= name@.take(b as int));
            }
            let c = name[b];
            if !(c == '\t' || c == '\n' || c == '\r') {
                v.push(c);
            }
            b = b + 1;
            assert(v@ =~= mid + cleaned(name@.take(b as int)));
        }
        assert(name@.take(b as int) =~= name@);
        v.push('\n');
        proof {
            assert(views(list@).take(k + 1).drop_last() =~= views(list@).take(k as int));
        }
        k = k + 1;
        assert(v@ =~= body_text(views(list@).take(k as int)));
    }
    assert(views(list@).take(k as int) =~= views(list@));
    from_chars(v)
}

/// After `remember`, the address just opened is first, under the name it
/// was opened with, it appears nowhere else, and the list holds at most
/// [`KEEP`].
pub proof fn lemma_remembered_first(l: Seq<(Seq<char>, Seq<char>)>, url: Seq<char>, name: Seq<
    char,
>)
    ensures
        remembered(l, url, name).len() >= 1,
        remembered(l, url, name).len() <= KEEP,
        remembered(l, url, name)[0] == (url, name),
        forall|k: int|
            1 <= k < remembered(l, url, name).len() ==> (#[trigger] remembered(l, url, name)[k]).0
                != url,
{
    let f = other_than(url);
    let r = seq![(url, name)] + l.filter(f);
    let m = remembered(l, url, name);
    assert(m.len() <= r.len());
    assert forall|k: int| 0 <= k < m.len() implies #[trigger] m[k] == r[k] by {}
    assert forall|k: int| 1 <= k < m.len() implies (#[trigger] m[k]).0 != url by {
        assert(m[k] == r[k]);
        assert(r[k] == l.filter(f)[k - 1]);
        l.lemma_filter_pred(f, k - 1);
    }
}

/// No address appears twice.
pub open spec fn one_each(l: Seq<(Seq<char>, Seq<char>)>) -> bool {
    forall|i: int, j: int| 0 <= i < j < l.len() ==> (#[trigger] l[i]).0 != (#[trigger] l[j]).0
}

proof fn lemma_filter_avoids(
    s: Seq<(Seq<char>, Seq<char>)>,
    p: spec_fn((Seq<char>, Seq<char>)) -> bool,
    x: Seq<char>,
)
    requires
        forall|j: int| 0 <= j < s.len() ==> (#[trigger] s[j]).0 != x,
    ensures
        forall|i: int| 0 <= i < s.filter(p).len() ==> (#[trigger] s.filter(p)[i]).0 != x,
    decreases s.len(),
{
    reveal(Seq::filter);
    if s.len() > 0 {
        let front = s.drop_last();
        assert forall|j: int| 0 <= j < front.len() implies (#[trigger] front[j]).0 != x by {
            assert(front[j] == s[j]);
        }
        lemma_filter_avoids(front, p, x);
        let f = front.filter(p);
        assert forall|i: int| 0 <= i < s.filter(p).len() implies (#[trigger] s.filter(p)[i]).0 != x by {
            if i < f.len() {
                assert(s.filter(p)[i] == f[i]);
            } else {
                assert(s.filter(p)[i] == s.last());
            }
        }
    }
}

proof fn lemma_filter_one_each(s: Seq<(Seq<char>, Seq<char>)>, p: spec_fn((Seq<char>, Seq<char>)) -> bool)
    requires
        one_each(s),
    ensures
        one_each(s.filter(p)),
    decreases s.len(),
{
    reveal(Seq::filter);
    if s.len() > 0 {
        let front = s.drop_last();
        assert(one_each(front)) by {
            assert forall|i: int, j: int| 0 <= i < j < front.len() implies (#[trigger] front[i]).0 != (
            #[trigger] front[j]).0 by {
                assert(front[i] == s[i] && front[j] == s[j]);
            }
        }
        lemma_filter_one_each(front, p);
        let x = s.last().0;
        assert forall|j: int| 0 <= j < front.len() implies (#[trigger] front[j]).0 != x by {
            assert(front[j] == s[j]);
            assert(s[j].0 != s[s.len() - 1].0);
        }
        lemma_filter_avoids(front, p, x);
        let f = front.filter(p);
        let out = s.filter(p);
        assert forall|i: int, j: int| 0 <= i < j < out.len() implies (#[trigger] out[i]).0 != (
        #[trigger] out[j]).0 by {
            if j < f.len() {
                assert(out[i] == f[i] && out[j] == f[j]);
            } else {
                assert(out[i] == f[i]);
                assert(out[j] == s.last());
            }
        }
    }
}

/// Remembering keeps the list one line per address: an address opened
/// again moves to the front rather than appearing twice.
pub proof fn lemma_remember_keeps_one_each(l: Seq<(Seq<char>, Seq<char>)>, url: Seq<char>, name: Seq<
    char,
>)
    requires
        one_each(l),
    ensures
        one_each(remembered(l, url, name)),
{
    let f = other_than(url);
    lemma_filter_one_each(l, f);
    let g = l.filter(f);
    let r = seq![(url, name)] + g;
    assert forall|i: int, j: int| 0 <= i < j < r.len() implies (#[trigger] r[i]).0 != (#[trigger] r[j]).0 by {
        if i == 0 {
            assert(r[j] == g[j - 1]);
            l.lemma_filter_pred(f, j - 1);
        } else {
            assert(r[i] == g[i - 1] && r[j] == g[j - 1]);
        }
    }
    let m = remembered(l, url, name);
    assert forall|i: int, j: int| 0 <= i < j < m.len() implies (#[trigger] m[i]).0 != (#[trigger] m[j]).0 by {
        assert(m[i] == r[i] && m[j] == r[j]);
    }
}

/// The line an entry is written as.
pub open spec fn body_line(e: (Seq<char>, Seq<char>)) -> Seq<char> {
    cleaned(e.0) + seq!['\t'] + cleaned(e.1)
}

pub open spec fn body_lines(l: Seq<(Seq<char>, Seq<char>)>) -> Seq<Seq<char>> {
    l.map_values(|e: (Seq<char>, Seq<char>)| body_line(e))
}

proof fn lemma_body_joined(l: Seq<(Seq<char>, Seq<char>)>)
    ensures
        body_text(l) == joined(body_lines(l)),
    decreases l.len(),
{
    if l.len() > 0 {
        lemma_body_joined(l.drop_last());
        assert(body_lines(l).drop_last() =~= body_lines(l.drop_last()));
        assert(body_lines(l).last() == body_line(l.last()));
        assert(body_text(l) =~= joined(body_lines(l)));
    } else {
        assert(body_lines(l) =~= Seq::<Seq<char>>::empty());
    }
}

proof fn lemma_cleaned(s: Seq<char>)
    ensures
        forall|k: int| 0 <= k < cleaned(s).len() ==> !breaks(#[trigger] cleaned(s)[k]),
        (forall|k: int| 0 <= k < s.len() ==> !breaks(#[trigger] s[k])) ==> cleaned(s) == s,
    decreases s.len(),
{
    let p = |c: char| !breaks(c);
    assert forall|k: int| 0 <= k < cleaned(s).len() implies !breaks(#[trigger] cleaned(s)[k]) by {
        s.lemma_filter_pred(p, k);
    }
    if s.len() > 0 {
        lemma_cleaned(s.drop_last());
        if forall|k: int| 0 <= k < s.len() ==> !breaks(#[trigger] s[k]) {
            assert forall|k: int| 0 <= k < s.drop_last().len() implies !breaks(
                #[trigger] s.drop_last()[k],
            ) by {
                assert(s.drop_last()[k] == s[k]);
            }
            reveal(Seq::filter);
            assert(!breaks(s.last()));
            assert(cleaned(s) =~= cleaned(s.drop_last()).push(s.last()));
            assert(s.drop_last().push(s.last()) =~= s);
        }
    } else {
        reveal(Seq::filter);
    }
}

proof fn lemma_body_line_plain(e: (Seq<char>, Seq<char>))
    ensures
        plain_line(body_line(e)),
{
    lemma_cleaned(e.0);
    lemma_cleaned(e.1);
    let u = cleaned(e.0);
    let n = cleaned(e.1);
    let l = body_line(e);
    assert forall|k: int| 0 <= k < l.len() implies #[trigger] l[k] != '\n' by {
        if k < u.len() {
            assert(l[k] == u[k]);
        } else if k > u.len() {
            assert(l[k] == n[k - u.len() - 1]);
        }
    }
    if n.len() > 0 {
        assert(l.last() == n.last());
    }
}

/// However the fields are spelt, the text written for a list has one line
/// per entry and no more: a tab or a newline in a field cannot forge a
/// second entry.
pub proof fn lemma_one_line_each(l: Seq<(Seq<char>, Seq<char>)>)
    ensures
        lines(body_text(l)) == body_lines(l),
        lines(body_text(l)).len() == l.len(),
{
    lemma_body_joined(l);
    assert forall|j: int| 0 <= j < body_lines(l).len() implies plain_line(#[trigger] body_lines(l)[j]) by {
        lemma_body_line_plain(l[j]);
    }
    lemma_lines_of_joined(body_lines(l));
}

/// An entry as `parse` gives them: an address and a name already trimmed,
/// the address not empty, and neither with a tab, newline or carriage
/// return in it.
pub open spec fn clean_entry(e: (Seq<char>, Seq<char>)) -> bool {
    &&& e.0.len() > 0
    &&& trim(e.0) == e.0
    &&& trim(e.1) == e.1
    &&& forall|k: int| 0 <= k < e.0.len() ==> !breaks(#[trigger] e.0[k])
    &&& forall|k: int| 0 <= k < e.1.len() ==> !breaks(#[trigger] e.1[k])
}

proof fn lemma_entry_back(e: (Seq<char>, Seq<char>))
    requires
        clean_entry(e),
    ensures
        entry_of(body_line(e)) == Some(e),
{
    lemma_cleaned(e.0);
    lemma_cleaned(e.1);
    let l = body_line(e);
    let n = e.0.len() as int;
    assert forall|j: int| 0 <= j < n implies l[j] != '\t' by {
        assert(l[j] == e.0[j]);
    }
    assert(l[n] == '\t');
    lemma_find_is(l, 0, '\t', n);
    assert(l.subrange(0, n) =~= e.0);
    assert(l.subrange(n + 1, l.len() as int) =~= e.1);
}

proof fn lemma_filter_map_all<A, B>(s: Seq<A>, f: spec_fn(A) -> Option<B>, g: spec_fn(A) -> B)
    requires
        forall|k: int| 0 <= k < s.len() ==> f(#[trigger] s[k]) == Some(g(s[k])),
    ensures
        s.filter_map(f) == s.map_values(g),
    decreases s.len(),
{
    if s.len() > 0 {
        let front = s.drop_last();
        assert forall|k: int| 0 <= k < front.len() implies f(#[trigger] front[k]) == Some(g(front[k])) by {
            assert(front[k] == s[k]);
        }
        lemma_filter_map_all(front, f, g);
        assert(f(s.last()) == Some(g(s.last())));
        assert(s.map_values(g) =~= front.map_values(g) + seq![g(s.last())]);
    } else {
        assert(s.map_values(g) =~= Seq::<B>::empty());
    }
}

/// What is written is what is read: a list of entries as `parse` gives
/// them comes back from its text as it was, ten at most.
pub proof fn lemma_written_list_reads_back(l: Seq<(Seq<char>, Seq<char>)>)
    requires
        forall|k: int| 0 <= k < l.len() ==> clean_entry(#[trigger] l[k]),
    ensures
        parsed(body_text(l)) == keep(l),
{
    lemma_one_line_each(l);
    let ls = body_lines(l);
    let back = |line: Seq<char>| -> (Seq<char>, Seq<char>) {
        match entry_of(line) {
            Some(x) => x,
            None => (Seq::empty(), Seq::empty()),
        }
    };
    assert forall|k: int| 0 <= k < ls.len() implies entry_fn()(#[trigger] ls[k]) == Some(back(ls[k])) by {
        lemma_entry_back(l[k]);
    }
    lemma_filter_map_all(ls, entry_fn(), back);
    assert forall|k: int| 0 <= k < ls.len() implies ls.map_values(back)[k] == l[k] by {
        lemma_entry_back(l[k]);
    }
    assert(ls.map_values(back) =~= l);
}

} // verus!
