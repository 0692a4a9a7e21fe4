//! Installing an application: a launcher entry, with the application's own
//! icon, that starts it in an EUI window.
//!
//! Writing files and starting processes is the caller's. What is here is
//! what decides: the file name an `app_id` becomes, the record of what was
//! written and how it reads back, what installing does to that record, and
//! the quoting each launcher format asks for.

use vstd::prelude::*;

use crate::manifest::{join, join_path};

use crate::text::{
    chars_of, find_in, from_chars, lemma_find_is, lemma_next_nl, line_at, lines, lines_from,
    push_str, same_text, split, split_ranges, string_of, trim, trim_range, joined, plain_line,
    lemma_lines_of_joined, sep_joined, lemma_split_sep_joined,
};

verus! {

/// An application to install.
#[derive(Debug, PartialEq, Eq)]
pub struct App {
    /// The manifest's `app_id`: what the entry is filed under.
    pub app_id: String,
    /// What the desktop shows under the icon.
    pub name: String,
    /// The address the entry opens: the whole session URL.
    pub url: String,
    /// The PNG the manifest's `icon` named, already verified against it.
    pub icon: Vec<u8>,
}

/// An application that is installed, and what it put on disk.
#[derive(Debug, PartialEq, Eq)]
pub struct Entry {
    /// The manifest's `app_id`.
    pub app_id: String,
    /// The name the entry shows.
    pub name: String,
    /// The address it opens.
    pub url: String,
    /// Every file written for it, the launcher entry first.
    pub files: Vec<String>,
}

pub struct EntryModel {
    pub app_id: Seq<char>,
    pub name: Seq<char>,
    pub url: Seq<char>,
    pub files: Seq<Seq<char>>,
}

pub open spec fn strs(v: Seq<String>) -> Seq<Seq<char>> {
    v.map_values(|s: String| s@)
}

impl View for Entry {
    type V = EntryModel;

    open spec fn view(&self) -> EntryModel {
        EntryModel {
            app_id: self.app_id@,
            name: self.name@,
            url: self.url@,
            files: strs(self.files@),
        }
    }
}

pub open spec fn models(v: Seq<Entry>) -> Seq<EntryModel> {
    v.map_values(|e: Entry| e@)
}

fn clone_strings(v: &Vec<String>) -> (r: Vec<String>)
    ensures
        strs(r@) == strs(v@),
{
    let mut r: Vec<String> = Vec::new();
    let mut k: usize = 0;
    while k < v.len()
        invariant
            k <= v@.len(),
            r@.len() == k,
            forall|j: int| 0 <= j < k ==> (#[trigger] r@[j])@ == v@[j]@,
        decreases v.len() - k,
    {
        let s = v[k].clone();
        r.push(s);
        k = k + 1;
    }
    assert(strs(r@) =~= strs(v@));
    r
}

impl Clone for Entry {
    fn clone(&self) -> (r: Entry)
        ensures
            r@ == self@,
    {
        Entry {
            app_id: self.app_id.clone(),
            name: self.name.clone(),
            url: self.url.clone(),
            files: clone_strings(&self.files),
        }
    }
}

// ------------------------------------------------------------------ slug

/// The longest `app_id` prefix a file name is made from.
pub const SLUG_CHARS: usize = 96;

pub open spec fn is_lower(c: char) -> bool {
    97 <= c as u32 <= 122
}

pub open spec fn is_upper(c: char) -> bool {
    65 <= c as u32 <= 90
}

pub open spec fn is_digit(c: char) -> bool {
    48 <= c as u32 <= 57
}

/// What every filesystem and the freedesktop icon lookup take in a name.
pub open spec fn name_char(c: char) -> bool {
    is_lower(c) || is_digit(c) || c == '-' || c == '_' || c == '.'
}

/// One character of an `app_id` onto the name so far: kept, lowered,
/// a dot only after something, and anything else one dash however many
/// come in a row.
pub open spec fn slug_step(out: Seq<char>, c: char) -> Seq<char> {
    if is_lower(c) || is_digit(c) || c == '-' || c == '_' {
        out.push(c)
    } else if is_upper(c) {
        out.push(((c as u32) + 32) as char)
    } else if c == '.' && out.len() > 0 {
        out.push('.')
    } else if out.len() > 0 && out.last() == '-' {
        out
    } else {
        out.push('-')
    }
}

pub open spec fn slug_built(s: Seq<char>) -> Seq<char>
    decreases s.len(),
{
    if s.len() == 0 {
        Seq::empty()
    } else {
        slug_step(slug_built(s.drop_last()), s.last())
    }
}

pub open spec fn dash_or_dot(c: char) -> bool {
    c == '-' || c == '.'
}

pub open spec fn strip_start(s: Seq<char>) -> Seq<char>
    decreases s.len(),
{
    if s.len() > 0 && dash_or_dot(s[0]) {
        strip_start(s.drop_first())
    } else {
        s
    }
}

pub open spec fn strip_end(s: Seq<char>) -> Seq<char>
    decreases s.len(),
{
    if s.len() > 0 && dash_or_dot(s.last()) {
        strip_end(s.drop_last())
    } else {
        s
    }
}

/// The file name for `app_id`, or none when nothing usable is in it.
pub open spec fn slug_of(app_id: Seq<char>) -> Option<Seq<char>> {
    let head = if app_id.len() <= SLUG_CHARS {
        app_id
    } else {
        app_id.take(SLUG_CHARS as int)
    };
    let name = strip_end(strip_start(slug_built(head)));
    if name.len() == 0 {
        None
    } else {
        Some(name)
    }
}

proof fn lemma_slug_built(s: Seq<char>)
    ensures
        slug_built(s).len() <= s.len(),
        forall|k: int| 0 <= k < slug_built(s).len() ==> name_char(#[trigger] slug_built(s)[k]),
    decreases s.len(),
{
    if s.len() > 0 {
        lemma_slug_built(s.drop_last());
        let c = s.last();
        if is_upper(c) {
            let d = ((c as u32) + 32) as char;
            assert(is_lower(d));
        }
    }
}

proof fn lemma_strip_start(s: Seq<char>)
    ensures
        strip_start(s).len() <= s.len(),
        (forall|k: int| 0 <= k < s.len() ==> name_char(#[trigger] s[k])) ==> (forall|k: int|
            0 <= k < strip_start(s).len() ==> name_char(#[trigger] strip_start(s)[k])),
        strip_start(s).len() > 0 ==> !dash_or_dot(strip_start(s)[0]),
    decreases s.len(),
{
    if s.len() > 0 && dash_or_dot(s[0]) {
        lemma_strip_start(s.drop_first());
        if forall|k: int| 0 <= k < s.len() ==> name_char(#[trigger] s[k]) {
            assert forall|k: int| 0 <= k < s.drop_first().len() implies name_char(
                #[trigger] s.drop_first()[k],
            ) by {
                assert(s.drop_first()[k] == s[k + 1]);
            }
        }
    }
}

proof fn lemma_strip_end(s: Seq<char>)
    ensures
        strip_end(s).len() <= s.len(),
        forall|k: int| 0 <= k < strip_end(s).len() ==> #[trigger] strip_end(s)[k] == s[k],
        strip_end(s).len() > 0 ==> !dash_or_dot(strip_end(s).last()),
    decreases s.len(),
{
    if s.len() > 0 && dash_or_dot(s.last()) {
        lemma_strip_end(s.drop_last());
    }
}

/// A file name for `app_id`: lowercase, and only what every one of the
/// three filesystems and the freedesktop icon lookup agree is a name.
/// Nothing usable in it is none rather than a guess.
pub fn slug(app_id: &str) -> (r: Option<String>)
    ensures
        r matches Some(s) ==> Some(s@) == slug_of(app_id@),
        r is None ==> slug_of(app_id@) is None,
        r matches Some(s) ==> 0 < s@.len() <= SLUG_CHARS && (forall|k: int|
            0 <= k < s@.len() ==> name_char(#[trigger] s@[k])) && !dash_or_dot(s@[0])
            && !dash_or_dot(s@.last()),
{
    let cs = chars_of(app_id);
    let n = if cs.len() <= SLUG_CHARS {
        cs.len()
    } else {
        SLUG_CHARS
    };
    let ghost head = if app_id@.len() <= SLUG_CHARS {
        app_id@
    } else {
        app_id@.take(SLUG_CHARS as int)
    };
    assert(head =~= cs@.take(n as int));
    let mut out: Vec<char> = Vec::new();
    let mut k: usize = 0;
    while k < n
        invariant
            n <= cs@.len(),
            k <= n,
            out@ == slug_built(cs@.take(k as int)),
        decreases n - k,
    {
        let c = cs[k];
        proof {
            assert(cs@.take(k + 1).drop_last() =~= cs@.take(k as int));
        }
        let v = c as u32;
        if (97 <= v && v <= 122) || (48 <= v && v <= 57) || c == '-' || c == '_' {
            out.push(c);
        } else if 65 <= v && v <= 90 {
            let lower = ((v as u8) + 32) as char;
            out.push(lower);
        } else if c == '.' && out.len() > 0 {
            out.push('.');
        } else if out.len() > 0 && out[out.len() - 1] == '-' {
        } else {
            out.push('-');
        }
        k = k + 1;
    }
    let m = out.len();
    let mut a: usize = 0;
    assert(out@.subrange(0, m as int) =~= out@);
    while a < m && (out[a] == '-' || out[a] == '.')
        invariant
            m == out@.len(),
            a <= m,
            strip_start(out@.subrange(a as int, m as int)) == strip_start(out@),
        decreases m - a,
    {
        assert(out@.subrange(a as int, m as int).drop_first() =~= out@.subrange(a + 1, m as int));
        a = a + 1;
    }
    assert(out@.subrange(0, m as int) =~= out@);
    let mut b = m;
    while b > a && (out[b - 1] == '-' || out[b - 1] == '.')
        invariant
            m == out@.len(),
            a <= b <= m,
            strip_end(out@.subrange(a as int, b as int)) == strip_end(
                out@.subrange(a as int, m as int),
            ),
        decreases b - a,
    {
        assert(out@.subrange(a as int, b as int).drop_last() =~= out@.subrange(a as int, b - 1));
        b = b - 1;
    }
    proof {
        lemma_slug_built(cs@.take(n as int));
        lemma_strip_start(out@);
        lemma_strip_end(strip_start(out@));
    }
    if a < b {
        let s = string_of(&out, a, b);
        proof {
            let name = strip_end(strip_start(out@));
            assert(s@ == name);
            assert forall|k: int| 0 <= k < s@.len() implies name_char(#[trigger] s@[k]) by {
                assert(name[k] == strip_start(out@)[k]);
            }
            assert(name[0] == strip_start(out@)[0]);
        }
        Some(s)
    } else {
        None
    }
}

proof fn lemma_slug_built_keeps(s: Seq<char>)
    requires
        forall|k: int| 0 <= k < s.len() ==> name_char(#[trigger] s[k]),
        s.len() > 0 ==> s[0] != '.',
    ensures
        slug_built(s) == s,
    decreases s.len(),
{
    if s.len() > 0 {
        let f = s.drop_last();
        assert forall|k: int| 0 <= k < f.len() implies name_char(#[trigger] f[k]) by {
            assert(f[k] == s[k]);
        }
        if f.len() > 0 {
            assert(f[0] == s[0]);
        }
        lemma_slug_built_keeps(f);
        assert(name_char(s[s.len() - 1]));
        assert(s.last() == '.' ==> f.len() > 0);
        assert(f.push(s.last()) =~= s);
    }
}

/// A file name is its own file name: [`slug`] of what [`slug`] gave
/// gives it back.
pub proof fn lemma_slug_is_its_own_slug(app_id: Seq<char>)
    requires
        slug_of(app_id) is Some,
    ensures
        slug_of(slug_of(app_id)->0) == slug_of(app_id),
{
    let head = if app_id.len() <= SLUG_CHARS {
        app_id
    } else {
        app_id.take(SLUG_CHARS as int)
    };
    let built = slug_built(head);
    lemma_slug_built(head);
    lemma_strip_start(built);
    lemma_strip_end(strip_start(built));
    let name = strip_end(strip_start(built));
    assert forall|k: int| 0 <= k < name.len() implies name_char(#[trigger] name[k]) by {
        assert(name[k] == strip_start(built)[k]);
    }
    assert(name[0] == strip_start(built)[0]);
    assert(name.len() <= SLUG_CHARS);
    lemma_slug_built_keeps(name);
    assert(strip_start(name) == name);
    assert(strip_end(name) == name);
}

// ---------------------------------------------------------------- record

pub open spec fn files_text(fs: Seq<Seq<char>>) -> Seq<char>
    decreases fs.len(),
{
    if fs.len() == 0 {
        Seq::empty()
    } else {
        files_text(fs.drop_last()) + seq!['\t'] + fs.last()
    }
}

/// One line of the record, without its newline.
pub open spec fn entry_text(e: EntryModel) -> Seq<char> {
    e.app_id + seq!['\t'] + e.name + seq!['\t'] + e.url + files_text(e.files)
}

/// The record: one line per entry.
pub open spec fn record_text(l: Seq<EntryModel>) -> Seq<char>
    decreases l.len(),
{
    if l.len() == 0 {
        Seq::empty()
    } else {
        record_text(l.drop_last()) + entry_text(l.last()) + seq!['\n']
    }
}

pub open spec fn file_of(f: Seq<char>) -> Option<Seq<char>> {
    if trim(f).len() > 0 {
        Some(trim(f))
    } else {
        None
    }
}

pub open spec fn file_fn() -> spec_fn(Seq<char>) -> Option<Seq<char>> {
    |f: Seq<char>| file_of(f)
}

/// The entry a line of the record is: its first three tab-separated
/// fields trimmed, the rest the files that are not blank. A line with
/// fewer fields, or without an `app_id` or an address, is none.
pub open spec fn entry_line(line: Seq<char>) -> Option<EntryModel> {
    let ps = split(line, '\t');
    if ps.len() < 3 {
        None
    } else if trim(ps[0]).len() == 0 || trim(ps[2]).len() == 0 {
        None
    } else {
        Some(
            EntryModel {
                app_id: trim(ps[0]),
                name: trim(ps[1]),
                url: trim(ps[2]),
                files: ps.skip(3).filter_map(file_fn()),
            },
        )
    }
}

pub open spec fn entry_line_fn() -> spec_fn(Seq<char>) -> Option<EntryModel> {
    |line: Seq<char>| entry_line(line)
}

/// What the record says.
pub open spec fn listed(t: Seq<char>) -> Seq<EntryModel> {
    lines(t).filter_map(entry_line_fn())
}

proof fn lemma_filter_map_push<A, B>(s: Seq<A>, x: A, f: spec_fn(A) -> Option<B>)
    ensures
        s.push(x).filter_map(f) == match f(x) {
            Some(y) => s.filter_map(f) + seq![y],
            None => s.filter_map(f),
        },
{
    assert(s.push(x).drop_last() =~= s);
}

/// The entry on the line `cs[i..e]`, when there is one.
fn entry_at(cs: &Vec<char>, i: usize, e: usize) -> (r: Option<Entry>)
    requires
        i <= e <= cs@.len(),
    ensures
        match entry_line(cs@.subrange(i as int, e as int)) {
            Some(m) => r matches Some(x) && x@ == m,
            None => r is None,
        },
{
    let ghost line = cs@.subrange(i as int, e as int);
    let ghost ps = split(line, '\t');
    let r = split_ranges(cs, i, e, '\t');
    if r.len() < 3 {
        return None;
    }
    let (a0, a1) = trim_range(cs, r[0].0, r[0].1);
    let (n0, n1) = trim_range(cs, r[1].0, r[1].1);
    let (u0, u1) = trim_range(cs, r[2].0, r[2].1);
    if a0 == a1 || u0 == u1 {
        return None;
    }
    let mut files: Vec<String> = Vec::new();
    let mut q: usize = 3;
    while q < r.len()
        invariant
            3 <= q <= r@.len(),
            i <= e <= cs@.len(),
            r@.len() == ps.len(),
            ps == split(cs@.subrange(i as int, e as int), '\t'),
            forall|k: int|
                0 <= k < r@.len() ==> i <= (#[trigger] r@[k]).0 <= r@[k].1 <= e && cs@.subrange(
                    r@[k].0 as int,
                    r@[k].1 as int,
                ) == ps[k],
            strs(files@) == ps.subrange(3, q as int).filter_map(file_fn()),
        decreases r.len() - q,
    {
        let (f0, f1) = trim_range(cs, r[q].0, r[q].1);
        proof {
            assert(ps.subrange(3, q + 1) =~= ps.subrange(3, q as int).push(ps[q as int]));
            lemma_filter_map_push(ps.subrange(3, q as int), ps[q as int], file_fn());
        }
        if f0 < f1 {
            files.push(string_of(cs, f0, f1));
        }
        q = q + 1;
        assert(strs(files@) =~= ps.subrange(3, q as int).filter_map(file_fn()));
    }
    assert(ps.subrange(3, q as int) =~= ps.skip(3));
    let x = Entry {
        app_id: string_of(cs, a0, a1),
        name: string_of(cs, n0, n1),
        url: string_of(cs, u0, u1),
        files,
    };
    Some(x)
}

/// Read the record. A line that does not parse is skipped rather than
/// discarding the rest: a truncated write costs one entry and not all
/// of them.
pub fn list(text: &str) -> (out: Vec<Entry>)
    ensures
        models(out@) == listed(text@),
{
    let cs = chars_of(text);
    let ghost t = cs@;
    let n = cs.len();
    let mut out: Vec<Entry> = Vec::new();
    let ghost mut done: Seq<Seq<char>> = Seq::empty();
    let mut i: usize = 0;
    while i < n
        invariant
            t == cs@,
            n == t.len(),
            i <= n,
            lines(t) == done + lines_from(t, i as int),
            models(out@) == done.filter_map(entry_line_fn()),
        decreases n - i,
    {
        let k = find_in(&cs, i, n, '\n');
        proof {
            lemma_find_is(t, i as int, '\n', k as int);
        }
        let e = if k < n && k > i && cs[k - 1] == '\r' {
            k - 1
        } else {
            k
        };
        let ghost line = t.subrange(i as int, e as int);
        assert(line == line_at(t, i as int));
        let got = entry_at(&cs, i, e);
        proof {
            lemma_filter_map_push(done, line, entry_line_fn());
        }
        match got {
            Some(x) => out.push(x),
            None => {},
        }
        proof {
            assert(models(out@) =~= done.push(line).filter_map(entry_line_fn()));
            lemma_next_nl(t, i as int);
            assert(lines_from(t, i as int) == seq![line_at(t, i as int)] + lines_from(
                t,
                k + 1,
            ));
            if k >= n {
                assert(lines_from(t, k + 1) =~= lines_from(t, n as int));
            }
            done = done.push(line);
        }
        if k < n {
            i = k + 1;
        } else {
            i = n;
        }
    }
    assert(lines_from(t, i as int) =~= Seq::<Seq<char>>::empty());
    assert(done =~= lines(t));
    out
}

/// The text the record is written as: each entry's fields and files
/// apart by tabs, one line each.
pub fn record(entries: &Vec<Entry>) -> (out: String)
    ensures
        out@ == record_text(models(entries@)),
{
    let mut v: Vec<char> = Vec::new();
    let mut k: usize = 0;
    while k < entries.len()
        invariant
            k <= entries@.len(),
            v@ == record_text(models(entries@).take(k as int)),
        decreases entries.len() - k,
    {
        let e = &entries[k];
        let ghost start = v@;
        push_str(&mut v, e.app_id.as_str());
        v.push('\t');
        push_str(&mut v, e.name.as_str());
        v.push('\t');
        push_str(&mut v, e.url.as_str());
        let ghost mid = v@;
        let mut q: usize = 0;
        while q < e.files.len()
            invariant
                q <= e.files@.len(),
                v@ == mid + files_text(strs(e.files@).take(q as int)),
            decreases e.files.len() - q,
        {
            v.push('\t');
            push_str(&mut v, e.files[q].as_str());
            proof {
                assert(strs(e.files@).take(q + 1).drop_last() =~= strs(e.files@).take(q as int));
            }
            q = q + 1;
            assert(v@ =~= mid + files_text(strs(e.files@).take(q as int)));
        }
        assert(strs(e.files@).take(q as int) =~= strs(e.files@));
        v.push('\n');
        proof {
            assert(models(entries@).take(k + 1).drop_last() =~= models(entries@).take(k as int));
        }
        k = k + 1;
        assert(v@ =~= record_text(models(entries@).take(k as int)));
    }
    assert(models(entries@).take(k as int) =~= models(entries@));
    from_chars(v)
}

pub open spec fn entry_pieces(e: EntryModel) -> Seq<Seq<char>> {
    seq![e.app_id, e.name, e.url] + e.files
}

proof fn lemma_files_text(head: Seq<Seq<char>>, fs: Seq<Seq<char>>)
    requires
        head.len() >= 1,
    ensures
        sep_joined(head, '\t') + files_text(fs) == sep_joined(head + fs, '\t'),
    decreases fs.len(),
{
    if fs.len() == 0 {
        assert(head + fs =~= head);
        assert(sep_joined(head, '\t') + files_text(fs) =~= sep_joined(head, '\t'));
    } else {
        lemma_files_text(head, fs.drop_last());
        let all = head + fs;
        assert(all.drop_last() =~= head + fs.drop_last());
        assert(all.last() == fs.last());
        assert(sep_joined(all, '\t') == sep_joined(all.drop_last(), '\t') + seq!['\t'] + all.last());
        assert(sep_joined(head, '\t') + files_text(fs) =~= sep_joined(head + fs.drop_last(), '\t')
            + seq!['\t'] + fs.last());
    }
}

proof fn lemma_entry_text(e: EntryModel)
    ensures
        entry_text(e) == sep_joined(entry_pieces(e), '\t'),
{
    let one = seq![e.app_id];
    let two = seq![e.app_id, e.name];
    let h = seq![e.app_id, e.name, e.url];
    assert(sep_joined(one, '\t') == e.app_id);
    assert(two.drop_last() =~= one);
    assert(two.last() == e.name);
    assert(sep_joined(two, '\t') == e.app_id + seq!['\t'] + e.name);
    assert(h.drop_last() =~= two);
    assert(h.last() == e.url);
    assert(sep_joined(h, '\t') == e.app_id + seq!['\t'] + e.name + seq!['\t'] + e.url);
    lemma_files_text(h, e.files);
    assert(entry_pieces(e) =~= h + e.files);
}

/// A field the record keeps as it is: no tab, newline or carriage return
/// in it, and nothing `trim` would take off.
pub open spec fn plain_field(f: Seq<char>) -> bool {
    &&& trim(f) == f
    &&& forall|k: int| 0 <= k < f.len() ==> (#[trigger] f[k]) != '\t' && f[k] != '\n' && f[k] != '\r'
}

/// An entry as `list` gives them back.
pub open spec fn plain_entry(e: EntryModel) -> bool {
    &&& plain_field(e.app_id) && e.app_id.len() > 0
    &&& plain_field(e.name)
    &&& plain_field(e.url) && e.url.len() > 0
    &&& forall|k: int| 0 <= k < e.files.len() ==> plain_field(#[trigger] e.files[k]) && e.files[k].len() > 0
}

proof fn lemma_entry_back(e: EntryModel)
    requires
        plain_entry(e),
    ensures
        entry_line(entry_text(e)) == Some(e),
        plain_line(entry_text(e)),
{
    lemma_entry_text(e);
    let ps = entry_pieces(e);
    assert forall|j: int| 0 <= j < ps.len() implies plain_field(#[trigger] ps[j]) by {
        if j >= 3 {
            assert(ps[j] == e.files[j - 3]);
        }
    }
    assert forall|j: int, k: int| 0 <= j < ps.len() && 0 <= k < ps[j].len() implies #[trigger] ps[j][k] != '\t' by {
        assert(plain_field(ps[j]));
    }
    lemma_split_sep_joined(ps, '\t');
    assert(ps.skip(3) =~= e.files);
    assert forall|k: int| 0 <= k < e.files.len() implies file_fn()(#[trigger] e.files[k]) == Some(
        e.files[k],
    ) by {
        assert(plain_field(e.files[k]));
    }
    lemma_filter_map_id(e.files, file_fn());
    lemma_plain_sep_joined(ps);
}

proof fn lemma_plain_sep_joined(ps: Seq<Seq<char>>)
    requires
        ps.len() >= 1,
        forall|j: int| 0 <= j < ps.len() ==> plain_field(#[trigger] ps[j]),
    ensures
        plain_line(sep_joined(ps, '\t')),
    decreases ps.len(),
{
    let t = sep_joined(ps, '\t');
    if ps.len() == 1 {
        assert(plain_field(ps[0]));
    } else {
        let front = ps.drop_last();
        assert forall|j: int| 0 <= j < front.len() implies plain_field(#[trigger] front[j]) by {
            assert(front[j] == ps[j]);
        }
        lemma_plain_sep_joined(front);
        let a = sep_joined(front, '\t');
        let x = ps.last();
        assert(plain_field(x));
        assert(t == a + seq!['\t'] + x);
        assert forall|k: int| 0 <= k < t.len() implies #[trigger] t[k] != '\n' by {
            if k < a.len() {
                assert(t[k] == a[k]);
            } else if k > a.len() {
                assert(t[k] == x[k - a.len() - 1]);
            }
        }
        if x.len() > 0 {
            assert(t.last() == x.last());
        }
    }
}

proof fn lemma_filter_map_id<A>(s: Seq<A>, f: spec_fn(A) -> Option<A>)
    requires
        forall|k: int| 0 <= k < s.len() ==> f(#[trigger] s[k]) == Some(s[k]),
    ensures
        s.filter_map(f) == s,
    decreases s.len(),
{
    if s.len() > 0 {
        let front = s.drop_last();
        assert forall|k: int| 0 <= k < front.len() implies f(#[trigger] front[k]) == Some(front[k]) by {
            assert(front[k] == s[k]);
        }
        lemma_filter_map_id(front, f);
        assert(f(s.last()) == Some(s.last()));
        assert(front.push(s.last()) =~= s);
    }
}

pub open spec fn entry_lines(l: Seq<EntryModel>) -> Seq<Seq<char>> {
    l.map_values(|e: EntryModel| entry_text(e))
}

proof fn lemma_record_joined(l: Seq<EntryModel>)
    ensures
        record_text(l) == joined(entry_lines(l)),
    decreases l.len(),
{
    if l.len() > 0 {
        lemma_record_joined(l.drop_last());
        assert(entry_lines(l).drop_last() =~= entry_lines(l.drop_last()));
        assert(record_text(l) =~= joined(entry_lines(l)));
    } else {
        assert(entry_lines(l) =~= Seq::<Seq<char>>::empty());
    }
}

/// What is written is what is read: a record of entries as `list` gives
/// them back reads back as those entries.
pub proof fn lemma_record_round_trip(l: Seq<EntryModel>)
    requires
        forall|k: int| 0 <= k < l.len() ==> plain_entry(#[trigger] l[k]),
    ensures
        listed(record_text(l)) == l,
{
    lemma_record_joined(l);
    let ls = entry_lines(l);
    assert forall|j: int| 0 <= j < ls.len() implies plain_line(#[trigger] ls[j]) by {
        lemma_entry_back(l[j]);
    }
    lemma_lines_of_joined(ls);
    let back = |line: Seq<char>| -> EntryModel {
        match entry_line(line) {
            Some(x) => x,
            None => EntryModel { app_id: Seq::empty(), name: Seq::empty(), url: Seq::empty(), files: Seq::empty() },
        }
    };
    assert forall|k: int| 0 <= k < ls.len() implies entry_line_fn()(#[trigger] ls[k]) == Some(back(ls[k])) by {
        lemma_entry_back(l[k]);
    }
    lemma_filter_map_some(ls, entry_line_fn(), back);
    assert forall|k: int| 0 <= k < ls.len() implies ls.map_values(back)[k] == l[k] by {
        lemma_entry_back(l[k]);
    }
    assert(ls.map_values(back) =~= l);
}

proof fn lemma_filter_map_some<A, B>(s: Seq<A>, f: spec_fn(A) -> Option<B>, g: spec_fn(A) -> B)
    requires
        forall|k: int| 0 <= k < s.len() ==> f(#[trigger] s[k]) == Some(g(s[k])),
    ensures
        s.filter_map(f) == s.map_values(g),
    decreases s.len(),
{
    if s.len() > 0 {
        let front = s.drop_last();
        assert forall|k: int| 0 <= k < front.len() implies f(#[trigger] front[k]) == Some(g(front[k])) by {
            assert(front[k] == s[k]);
        }
        lemma_filter_map_some(front, f, g);
        assert(f(s.last()) == Some(g(s.last())));
        assert(s.map_values(g) =~= front.map_values(g) + seq![g(s.last())]);
    } else {
        assert(s.map_values(g) =~= Seq::<B>::empty());
    }
}

/// Whether this application has an entry in the record.
pub fn installed(entries: &Vec<Entry>, app_id: &str) -> (r: bool)
    ensures
        r == exists|k: int| 0 <= k < entries@.len() && (#[trigger] entries@[k]).app_id@ == app_id@,
{
    let id = app_id.to_owned();
    let mut k: usize = 0;
    while k < entries.len()
        invariant
            id@ == app_id@,
            k <= entries@.len(),
            forall|j: int| 0 <= j < k ==> (#[trigger] entries@[j]).app_id@ != app_id@,
        decreases entries.len() - k,
    {
        if same_text(&entries[k].app_id, &id) {
            return true;
        }
        k = k + 1;
    }
    false
}

/// An entry for some other application than `app_id`.
pub open spec fn other_app(app_id: Seq<char>) -> spec_fn(EntryModel) -> bool {
    |e: EntryModel| e.app_id != app_id
}

/// No application has two entries.
pub open spec fn one_entry_each(l: Seq<EntryModel>) -> bool {
    forall|i: int, j: int| 0 <= i < j < l.len() ==> (#[trigger] l[i]).app_id != (#[trigger] l[j]).app_id
}

proof fn lemma_filter_keeps(l: Seq<EntryModel>, p: spec_fn(EntryModel) -> bool, x: Seq<char>)
    requires
        forall|j: int| 0 <= j < l.len() ==> (#[trigger] l[j]).app_id != x,
    ensures
        forall|i: int| 0 <= i < l.filter(p).len() ==> (#[trigger] l.filter(p)[i]).app_id != x,
    decreases l.len(),
{
    reveal(Seq::filter);
    if l.len() > 0 {
        let front = l.drop_last();
        assert forall|j: int| 0 <= j < front.len() implies (#[trigger] front[j]).app_id != x by {
            assert(front[j] == l[j]);
        }
        lemma_filter_keeps(front, p, x);
        let f = front.filter(p);
        assert forall|i: int| 0 <= i < l.filter(p).len() implies (#[trigger] l.filter(p)[i]).app_id != x by {
            if i < f.len() {
                assert(l.filter(p)[i] == f[i]);
            } else {
                assert(l.filter(p)[i] == l.last());
            }
        }
    }
}

proof fn lemma_filter_one_entry_each(l: Seq<EntryModel>, p: spec_fn(EntryModel) -> bool)
    requires
        one_entry_each(l),
    ensures
        one_entry_each(l.filter(p)),
    decreases l.len(),
{
    reveal(Seq::filter);
    if l.len() > 0 {
        let front = l.drop_last();
        assert forall|i: int, j: int| 0 <= i < j < front.len() implies (#[trigger] front[i]).app_id != (
        #[trigger] front[j]).app_id by {
            assert(front[i] == l[i] && front[j] == l[j]);
        }
        lemma_filter_one_entry_each(front, p);
        let x = l.last().app_id;
        assert forall|j: int| 0 <= j < front.len() implies (#[trigger] front[j]).app_id != x by {
            assert(front[j] == l[j]);
            assert(l[j].app_id != l[l.len() - 1].app_id);
        }
        lemma_filter_keeps(front, p, x);
        let f = front.filter(p);
        let out = l.filter(p);
        assert forall|i: int, j: int| 0 <= i < j < out.len() implies (#[trigger] out[i]).app_id != (
        #[trigger] out[j]).app_id by {
            if j < f.len() {
                assert(out[i] == f[i] && out[j] == f[j]);
            } else {
                assert(out[i] == f[i]);
                assert(out[j] == l.last());
            }
        }
    }
}

/// Installing what is already installed replaces it: a record with one
/// entry per application keeps one entry per application, and the new
/// entry is the only one for its `app_id`.
pub proof fn lemma_install_replaces(l: Seq<EntryModel>, mine: EntryModel)
    requires
        one_entry_each(l),
    ensures
        one_entry_each(l.filter(other_app(mine.app_id)).push(mine)),
{
    let f = other_app(mine.app_id);
    lemma_filter_one_entry_each(l, f);
    let g = l.filter(f);
    let r = g.push(mine);
    assert forall|i: int, j: int| 0 <= i < j < r.len() implies (#[trigger] r[i]).app_id != (
    #[trigger] r[j]).app_id by {
        if j == g.len() {
            assert(r[i] == g[i]);
            l.lemma_filter_pred(f, i);
        } else {
            assert(r[i] == g[i] && r[j] == g[j]);
        }
    }
}

/// What `<str as Debug>::fmt` writes for `s`: the text in double quotes,
/// with what needs it escaped.
pub uninterp spec fn debug_quoted(s: Seq<char>) -> Seq<char>;

/// `format!("{:?}", s)`: what `<str as Debug>` writes for `s`. How it
/// quotes and escapes a string is named, not stated.
#[verifier::external_body]
fn debug_quote(s: &str) -> (r: String)
    ensures
        r@ == debug_quoted(s@),
{
    format!("{:?}", s)
}

/// The refusal of an `app_id` that is no name: the `app_id` as `Debug`
/// quotes it, then the words.
fn not_a_name(app_id: &str) -> (r: String)
    ensures
        r@ == debug_quoted(app_id@) + " is not a name anything can be filed under"@,
{
    let mut v: Vec<char> = Vec::new();
    push_str(&mut v, debug_quote(app_id).as_str());
    push_str(&mut v, " is not a name anything can be filed under");
    from_chars(v)
}

/// The record once `app` is installed at `place`: its entry names the
/// files [`files_for`] chooses, the launcher entry first, any earlier entry
/// of the same `app_id` is gone, and the new one is last. Refused when the
/// `app_id` is no name at all. Writing the files is the caller's.
pub fn install(app: &App, entries: &Vec<Entry>, place: &Place) -> (r: Result<
    (Vec<Entry>, Entry),
    String,
>)
    ensures
        r is Err <==> slug_of(app.app_id@) is None,
        r matches Err(e) ==> e@ == debug_quoted(app.app_id@)
            + " is not a name anything can be filed under"@,
        r matches Ok((rec, mine)) ==> mine@ == (EntryModel {
            app_id: app.app_id@,
            name: app.name@,
            url: app.url@,
            files: files_for(*place, *app, slug_of(app.app_id@)->0),
        }) && models(rec@) == models(entries@).filter(other_app(app.app_id@)).push(mine@),
        r matches Ok((rec, mine)) ==> mine.files@.len() > 0,
{
    let files = match slug(app.app_id.as_str()) {
        Some(s) => entry_files(place, app, s.as_str()),
        None => return Err(not_a_name(app.app_id.as_str())),
    };
    let ghost f = other_app(app.app_id@);
    let mut rec: Vec<Entry> = Vec::new();
    let mut k: usize = 0;
    while k < entries.len()
        invariant
            f == other_app(app.app_id@),
            k <= entries@.len(),
            models(rec@) == models(entries@).take(k as int).filter(f),
        decreases entries.len() - k,
    {
        let keepit = !same_text(&entries[k].app_id, &app.app_id);
        proof {
            reveal(Seq::filter);
            let t = models(entries@).take(k + 1);
            assert(t.drop_last() =~= models(entries@).take(k as int));
            assert(f(t.last()) == keepit);
        }
        if keepit {
            rec.push(entries[k].clone());
        }
        k = k + 1;
        assert(models(rec@) =~= models(entries@).take(k as int).filter(f));
    }
    assert(models(entries@).take(k as int) =~= models(entries@));
    let mine = Entry {
        app_id: app.app_id.clone(),
        name: app.name.clone(),
        url: app.url.clone(),
        files,
    };
    rec.push(mine.clone());
    assert(models(rec@) =~= models(entries@).filter(f).push(mine@));
    Ok((rec, mine))
}

// ------------------------------------------------------------ fetching

/// What a checked manifest says the application is called: its `name`,
/// or its `app_id` where the name is blank.
pub open spec fn shown_name(app_id: Seq<char>, name: Seq<char>) -> Seq<char> {
    if trim(name).len() == 0 {
        app_id
    } else {
        name
    }
}

/// Everything an entry needs, from what a checked manifest said and what
/// was fetched: `url` the whole address the entry opens, `app_id` and
/// `name` the manifest's, `icon` the bytes of its `icon` asset, or none
/// when it names no icon. An application with no icon is not installable,
/// and says so.
pub fn from_url(url: &str, app_id: &str, name: &str, icon: Option<Vec<u8>>) -> (r: Result<App, String>)
    ensures
        match icon {
            None => r matches Err(e) && e@ == name@ + " publishes no icon, so there is nothing to install it as"@,
            Some(bytes) => r matches Ok(app) && app.app_id@ == app_id@ && app.name@ == shown_name(
                app_id@,
                name@,
            ) && app.url@ == url@ && app.icon@ == bytes@,
        },
{
    let bytes = match icon {
        Some(b) => b,
        None => {
            let mut v: Vec<char> = Vec::new();
            push_str(&mut v, name);
            push_str(&mut v, " publishes no icon, so there is nothing to install it as");
            return Err(from_chars(v));
        },
    };
    let cs = chars_of(name);
    let (a, b) = trim_range(&cs, 0, cs.len());
    assert(cs@.subrange(0, cs@.len() as int) =~= name@);
    let shown = if a == b {
        app_id.to_owned()
    } else {
        name.to_owned()
    };
    Ok(App { app_id: app_id.to_owned(), name: shown, url: url.to_owned(), icon: bytes })
}

// ------------------------------------------------------------- removing

/// A component of a path that counts: not empty, not `.`.
pub open spec fn is_part(p: Seq<char>) -> bool {
    p.len() > 0 && p != "."@
}

pub open spec fn part_fn() -> spec_fn(Seq<char>) -> bool {
    |p: Seq<char>| is_part(p)
}

/// A path's components, as `Path::components` gives them on a system whose
/// separator is `/`: the root first when there is one, a `.` only when it
/// leads, and no empty ones.
pub open spec fn parts(s: Seq<char>) -> Seq<Seq<char>> {
    let ps = split(s, '/');
    let lead = if s.len() > 0 && s[0] == '/' {
        seq!["/"@]
    } else if ps.len() > 0 && ps[0] == "."@ {
        seq!["."@]
    } else {
        Seq::empty()
    };
    lead + ps.filter(part_fn())
}

/// `Path::starts_with`: the root's components begin the path's.
pub open spec fn under(path: Seq<char>, root: Seq<char>) -> bool {
    let a = parts(path);
    let b = parts(root);
    b.len() <= a.len() && a.subrange(0, b.len() as int) == b
}

fn one_char(c: char) -> (s: String)
    ensures
        s@ == seq![c],
{
    let mut v: Vec<char> = Vec::new();
    v.push(c);
    from_chars(v)
}

/// [`parts`] of `s`.
fn parts_of(s: &str) -> (r: Vec<String>)
    ensures
        r@.map_values(|x: String| x@) == parts(s@),
{
    proof {
        reveal_strlit("/");
        reveal_strlit(".");
    }
    let cs = chars_of(s);
    let n = cs.len();
    let rs = split_ranges(&cs, 0, n, '/');
    let ghost ps = split(s@, '/');
    assert(cs@.subrange(0, n as int) =~= s@);
    let mut out: Vec<String> = Vec::new();
    assert("/"@ =~= seq!['/']);
    assert("."@ =~= seq!['.']);
    if n > 0 && cs[0] == '/' {
        out.push(one_char('/'));
        assert(out@.map_values(|x: String| x@) =~= seq!["/"@]);
    } else if rs.len() > 0 && rs[0].1 > rs[0].0 && rs[0].1 - rs[0].0 == 1 && cs[rs[0].0] == '.' {
        assert(ps[0] =~= "."@);
        out.push(one_char('.'));
        assert(out@.map_values(|x: String| x@) =~= seq!["."@]);
    } else {
        assert(ps.len() > 0 ==> ps[0] != "."@) by {
            if ps.len() > 0 && ps[0] == "."@ {
                assert(ps[0].len() == 1);
                assert(ps[0][0] == cs@[rs@[0].0 as int]);
            }
        }
        assert(out@.map_values(|x: String| x@) =~= Seq::<Seq<char>>::empty());
    }
    let ghost lead = out@.map_values(|x: String| x@);
    assert(lead =~= (if s@.len() > 0 && s@[0] == '/' {
        seq!["/"@]
    } else if ps.len() > 0 && ps[0] == "."@ {
        seq!["."@]
    } else {
        Seq::empty()
    }));
    assert(ps.take(0).filter(part_fn()) =~= Seq::<Seq<char>>::empty()) by {
        reveal(Seq::filter);
    }
    assert(out@.map_values(|x: String| x@) =~= lead + ps.take(0).filter(part_fn()));
    let mut k: usize = 0;
    while k < rs.len()
        invariant
            n == cs@.len(),
            cs@ == s@,
            ps == split(s@, '/'),
            "."@ =~= seq!['.'],
            rs@.len() == ps.len(),
            forall|j: int|
                0 <= j < rs@.len() ==> 0 <= (#[trigger] rs@[j]).0 <= rs@[j].1 <= n && cs@.subrange(
                    rs@[j].0 as int,
                    rs@[j].1 as int,
                ) == ps[j],
            k <= rs@.len(),
            out@.map_values(|x: String| x@) == lead + ps.take(k as int).filter(part_fn()),
        decreases rs.len() - k,
    {
        let (a, b) = rs[k];
        let dot = b > a && b - a == 1 && cs[a] == '.';
        proof {
            reveal(Seq::filter);
            let t = ps.take(k + 1);
            assert(t.drop_last() =~= ps.take(k as int));
            assert(t.last() == ps[k as int]);
            if dot {
                assert(ps[k as int] =~= "."@);
            } else if b > a {
                assert(ps[k as int] == cs@.subrange(a as int, b as int));
                assert(ps[k as int] != "."@) by {
                    if ps[k as int] == "."@ {
                        assert(ps[k as int][0] == cs@[a as int]);
                    }
                }
            }
        }
        let ghost before = out@.map_values(|x: String| x@);
        if b > a && !dot {
            let piece = string_of(&cs, a, b);
            out.push(piece);
            assert(out@.map_values(|x: String| x@) =~= before.push(ps[k as int]));
            assert(ps.take(k + 1).filter(part_fn()) == ps.take(k as int).filter(part_fn()).push(ps[k as int]));
        } else {
            assert(!is_part(ps[k as int]));
            assert(ps.take(k + 1).filter(part_fn()) == ps.take(k as int).filter(part_fn()));
        }
        k = k + 1;
        assert(out@.map_values(|x: String| x@) =~= lead + ps.take(k as int).filter(part_fn()));
    }
    assert(ps.take(k as int) =~= ps);
    out
}

/// Whether `path` is inside one of `roots`: the only places an entry's
/// files are ever removed from. A path the record names elsewhere is left
/// alone, because the record could have been edited.
pub fn ours(path: &str, roots: &Vec<String>) -> (r: bool)
    ensures
        r == exists|i: int| 0 <= i < roots@.len() && under(path@, (#[trigger] roots@[i])@),
{
    let mine = parts_of(path);
    let ghost a = parts(path@);
    let mut i: usize = 0;
    while i < roots.len()
        invariant
            i <= roots@.len(),
            mine@.map_values(|x: String| x@) == a,
            a == parts(path@),
            forall|j: int| 0 <= j < i ==> !under(path@, (#[trigger] roots@[j])@),
        decreases roots.len() - i,
    {
        let theirs = parts_of(roots[i].as_str());
        let ghost b = parts(roots@[i as int]@);
        if theirs.len() <= mine.len() {
            let mut k: usize = 0;
            let mut same = true;
            assert(a.subrange(0, 0) =~= b.subrange(0, 0));
            while k < theirs.len()
                invariant
                    k <= theirs@.len() <= mine@.len(),
                    mine@.map_values(|x: String| x@) == a,
                    theirs@.map_values(|x: String| x@) == b,
                    same == (a.subrange(0, k as int) == b.subrange(0, k as int)),
                decreases theirs.len() - k,
            {
                let eq = same_text(&mine[k], &theirs[k]);
                proof {
                    assert(a[k as int] == mine@[k as int]@);
                    assert(b[k as int] == theirs@[k as int]@);
                    if same && eq {
                        assert(a.subrange(0, k + 1) =~= b.subrange(0, k + 1));
                    }
                    if !eq {
                        assert(a.subrange(0, k + 1)[k as int] == a[k as int]);
                        assert(b.subrange(0, k + 1)[k as int] == b[k as int]);
                    }
                    if !same {
                        if a.subrange(0, k + 1) == b.subrange(0, k + 1) {
                            assert(a.subrange(0, k as int) =~= a.subrange(0, k + 1).subrange(0, k as int));
                            assert(b.subrange(0, k as int) =~= b.subrange(0, k + 1).subrange(0, k as int));
                        }
                    }
                }
                same = same && eq;
                k = k + 1;
            }
            assert(b.subrange(0, k as int) =~= b);
            if same {
                return true;
            }
        }
        i = i + 1;
    }
    false
}

/// A path inside one of `roots`.
pub open spec fn in_roots(roots: Seq<Seq<char>>) -> spec_fn(Seq<char>) -> bool {
    |f: Seq<char>| exists|k: int| 0 <= k < roots.len() && under(f, #[trigger] roots[k])
}

/// Whether `i` is where the record first files `app_id`.
pub open spec fn first_entry(l: Seq<EntryModel>, app_id: Seq<char>, i: int) -> bool {
    &&& 0 <= i < l.len()
    &&& l[i].app_id == app_id
    &&& forall|j: int| 0 <= j < i ==> (#[trigger] l[j]).app_id != app_id
}

/// What uninstalling `app_id` does to the record `entries`: the files of
/// its entry that lie inside `roots`, which are the ones to delete, and the
/// record without any entry of it. Only what this module writes to is ever
/// deleted: a path the record names elsewhere stays, because the record is
/// a file in the person's own configuration and could have been edited.
/// Nothing is to be deleted for an application with no entry.
pub fn removal(entries: &Vec<Entry>, app_id: &str, roots: &Vec<String>) -> (r: (Vec<String>, Vec<Entry>))
    ensures
        (forall|k: int| 0 <= k < entries@.len() ==> (#[trigger] entries@[k]).app_id@ != app_id@) ==> r.0@.len()
            == 0,
        forall|i: int| first_entry(models(entries@), app_id@, i) ==> strs(r.0@) == models(entries@)[i].files.filter(
            in_roots(strs(roots@)),
        ),
        forall|p: int| 0 <= p < r.0@.len() ==> in_roots(strs(roots@))((#[trigger] r.0@[p])@) && exists|k: int|
            0 <= k < entries@.len() && (#[trigger] entries@[k]).app_id@ == app_id@ && models(entries@)[k].files.contains(
                r.0@[p]@,
            ),
        models(r.1@) == models(entries@).filter(other_app(app_id@)),
{
    let id = app_id.to_owned();
    let ghost l = models(entries@);
    let ghost keep = in_roots(strs(roots@));
    let mut doomed: Vec<String> = Vec::new();
    let mut k: usize = 0;
    while k < entries.len()
        invariant
            id@ == app_id@,
            l == models(entries@),
            k <= entries@.len(),
            forall|j: int| 0 <= j < k ==> (#[trigger] entries@[j]).app_id@ != app_id@,
        ensures
            k < entries@.len() ==> entries@[k as int].app_id@ == app_id@,
        decreases entries.len() - k,
    {
        if same_text(&entries[k].app_id, &id) {
            break;
        }
        k = k + 1;
    }
    if k < entries.len() {
        let files = &entries[k].files;
        let ghost fs = strs(files@);
        proof {
            assert(l[k as int] == entries@[k as int]@);
            assert(fs == l[k as int].files);
        }
        let mut j: usize = 0;
        while j < files.len()
            invariant
                k < entries@.len(),
                l == models(entries@),
                entries@[k as int].app_id@ == app_id@,
                files@ == entries@[k as int].files@,
                fs == strs(files@),
                fs == l[k as int].files,
                keep == in_roots(strs(roots@)),
                j <= files@.len(),
                strs(doomed@) == fs.take(j as int).filter(keep),
            decreases files.len() - j,
        {
            let mine = ours(files[j].as_str(), roots);
            proof {
                reveal(Seq::filter);
                let t = fs.take(j + 1);
                assert(t.drop_last() =~= fs.take(j as int));
                assert(t.last() == files@[j as int]@);
                if mine {
                    let w = choose|i: int| 0 <= i < roots@.len() && under(files@[j as int]@, (#[trigger] roots@[i])@);
                    assert(strs(roots@)[w] == roots@[w]@);
                    assert(keep(t.last()));
                } else {
                    assert forall|i: int| 0 <= i < strs(roots@).len() implies !under(
                        t.last(),
                        #[trigger] strs(roots@)[i],
                    ) by {
                        assert(strs(roots@)[i] == roots@[i]@);
                    }
                    assert(!keep(t.last()));
                }
            }
            if mine {
                doomed.push(files[j].clone());
            }
            j = j + 1;
            assert(strs(doomed@) =~= fs.take(j as int).filter(keep));
        }
        assert(fs.take(j as int) =~= fs);
        proof {
            assert(first_entry(l, app_id@, k as int));
            assert forall|i: int| first_entry(l, app_id@, i) implies i == k by {
                if i < k {
                    assert(entries@[i]@ == l[i]);
                } else if i > k {
                    assert(l[k as int].app_id == app_id@);
                }
            }
            assert forall|p: int| 0 <= p < doomed@.len() implies keep((#[trigger] doomed@[p])@) && exists|q: int|
                0 <= q < entries@.len() && (#[trigger] entries@[q]).app_id@ == app_id@ && l[q].files.contains(
                    doomed@[p]@,
                ) by {
                assert(strs(doomed@)[p] == doomed@[p]@);
                fs.lemma_filter_pred(keep, p);
                assert(fs.filter(keep).contains(doomed@[p]@));
                fs.lemma_filter_contains_rev(keep, doomed@[p]@);
            }
        }
    } else {
        proof {
            assert forall|i: int| first_entry(l, app_id@, i) implies false by {
                assert(entries@[i]@ == l[i]);
            }
        }
    }
    let ghost f = other_app(app_id@);
    let mut rest: Vec<Entry> = Vec::new();
    let mut m: usize = 0;
    while m < entries.len()
        invariant
            id@ == app_id@,
            f == other_app(app_id@),
            m <= entries@.len(),
            models(rest@) == models(entries@).take(m as int).filter(f),
        decreases entries.len() - m,
    {
        let keepit = !same_text(&entries[m].app_id, &id);
        proof {
            reveal(Seq::filter);
            let t = models(entries@).take(m + 1);
            assert(t.drop_last() =~= models(entries@).take(m as int));
            assert(f(t.last()) == keepit);
        }
        if keepit {
            rest.push(entries[m].clone());
        }
        m = m + 1;
        assert(models(rest@) =~= models(entries@).take(m as int).filter(f));
    }
    assert(models(entries@).take(m as int) =~= models(entries@));
    (doomed, rest)
}

// ------------------------------------------------------------------ quoting

/// How a launcher format wants a value written.
#[derive(Debug, Clone, Copy, PartialEq, Eq, Structural)]
pub enum Quoting {
    /// A desktop entry's `Exec`: double quotes, a backslash before `"`,
    /// `` ` ``, `$` and `\`, and a literal per cent doubled.
    Exec,
    /// XML character data.
    Xml,
    /// One single-quoted word for `/bin/sh`.
    Sh,
    /// One single-quoted PowerShell string.
    Ps,
}

/// What one character becomes.
pub open spec fn esc(q: Quoting, c: char) -> Seq<char> {
    match q {
        Quoting::Exec => (if c == '"' || c == '`' || c == '$' || c == '\\' {
            seq!['\\']
        } else {
            Seq::empty()
        }) + (if c == '%' {
            seq!['%']
        } else {
            Seq::empty()
        }) + seq![c],
        Quoting::Xml => if c == '&' {
            "&amp;"@
        } else if c == '<' {
            "&lt;"@
        } else if c == '>' {
            "&gt;"@
        } else {
            seq![c]
        },
        Quoting::Sh => if c == '\'' {
            "'\\''"@
        } else {
            seq![c]
        },
        Quoting::Ps => if c == '\'' {
            "''"@
        } else {
            seq![c]
        },
    }
}

pub open spec fn escaped(q: Quoting, s: Seq<char>) -> Seq<char>
    decreases s.len(),
{
    if s.len() == 0 {
        Seq::empty()
    } else {
        escaped(q, s.drop_last()) + esc(q, s.last())
    }
}

/// What surrounds the escaped text.
pub open spec fn quote_of(q: Quoting) -> Seq<char> {
    match q {
        Quoting::Exec => "\""@,
        Quoting::Xml => Seq::empty(),
        Quoting::Sh => "'"@,
        Quoting::Ps => "'"@,
    }
}

pub open spec fn quoted(q: Quoting, s: Seq<char>) -> Seq<char> {
    quote_of(q) + escaped(q, s) + quote_of(q)
}

fn push_quote(v: &mut Vec<char>, q: Quoting)
    ensures
        final(v)@ == old(v)@ + quote_of(q),
{
    match q {
        Quoting::Exec => push_str(v, "\""),
        Quoting::Xml => {
            assert(old(v)@ + Seq::<char>::empty() =~= old(v)@);
        },
        Quoting::Sh => push_str(v, "'"),
        Quoting::Ps => push_str(v, "'"),
    }
}

fn push_esc(v: &mut Vec<char>, q: Quoting, c: char)
    ensures
        final(v)@ == old(v)@ + esc(q, c),
{
    match q {
        Quoting::Exec => {
            if c == '"' || c == '`' || c == '$' || c == '\\' {
                v.push('\\');
            }
            if c == '%' {
                v.push('%');
            }
            v.push(c);
            assert(v@ =~= old(v)@ + esc(q, c));
        },
        Quoting::Xml => {
            if c == '&' {
                push_str(v, "&amp;");
            } else if c == '<' {
                push_str(v, "&lt;");
            } else if c == '>' {
                push_str(v, "&gt;");
            } else {
                v.push(c);
            }
        },
        Quoting::Sh => {
            if c == '\'' {
                push_str(v, "'\\''");
            } else {
                v.push(c);
            }
        },
        Quoting::Ps => {
            if c == '\'' {
                push_str(v, "''");
            } else {
                v.push(c);
            }
        },
    }
}

/// `s` written the way `q` says.
pub fn quote(q: Quoting, s: &str) -> (r: String)
    ensures
        r@ == quoted(q, s@),
{
    let cs = chars_of(s);
    let mut v: Vec<char> = Vec::new();
    push_quote(&mut v, q);
    let ghost head = v@;
    let mut k: usize = 0;
    while k < cs.len()
        invariant
            k <= cs@.len(),
            v@ == head + escaped(q, cs@.take(k as int)),
        decreases cs.len() - k,
    {
        push_esc(&mut v, q, cs[k]);
        proof {
            assert(cs@.take(k + 1).drop_last() =~= cs@.take(k as int));
        }
        k = k + 1;
        assert(v@ =~= head + escaped(q, cs@.take(k as int)));
    }
    assert(cs@.take(k as int) =~= s@);
    push_quote(&mut v, q);
    from_chars(v)
}

/// A value in a desktop entry's `Exec`: the quoting desktop entries ask for,
/// which is not the shell's.
pub fn exec_arg(s: &str) -> (r: String)
    ensures
        r@ == quoted(Quoting::Exec, s@),
{
    quote(Quoting::Exec, s)
}

/// `s` as XML character data.
pub fn xml(s: &str) -> (r: String)
    ensures
        r@ == quoted(Quoting::Xml, s@),
{
    quote(Quoting::Xml, s)
}

/// `s` as one single-quoted word for `/bin/sh`.
pub fn sh(s: &str) -> (r: String)
    ensures
        r@ == quoted(Quoting::Sh, s@),
{
    quote(Quoting::Sh, s)
}

/// `s` as one single-quoted PowerShell string.
pub fn ps(s: &str) -> (r: String)
    ensures
        r@ == quoted(Quoting::Ps, s@),
{
    quote(Quoting::Ps, s)
}

// ---------------------------------------------------------------- launchers

/// What the launcher calls the application: its name trimmed, or the slug
/// where the name is blank.
pub open spec fn display_name(name: Seq<char>, slug: Seq<char>) -> Seq<char> {
    if trim(name).len() == 0 {
        slug
    } else {
        trim(name)
    }
}

/// [`display_name`].
pub fn display(name: &str, slug: &str) -> (r: String)
    ensures
        r@ == display_name(name@, slug@),
{
    let cs = chars_of(name);
    let (a, b) = trim_range(&cs, 0, cs.len());
    assert(cs@.subrange(0, cs@.len() as int) =~= name@);
    if a == b {
        slug.to_owned()
    } else {
        string_of(&cs, a, b)
    }
}

/// `s` with each character that `bad` holds made a `-`.
pub open spec fn dashed(s: Seq<char>, bad: spec_fn(char) -> bool) -> Seq<char> {
    s.map_values(|c: char| if bad(c) { '-' } else { c })
}

/// The one character a macOS bundle's name cannot hold.
pub open spec fn bundle_bad() -> spec_fn(char) -> bool {
    |c: char| c == '/'
}

/// The characters a Windows file name cannot hold.
pub open spec fn link_bad() -> spec_fn(char) -> bool {
    |c: char|
        c == '\\' || c == '/' || c == ':' || c == '*' || c == '?' || c == '"' || c == '<' || c == '>'
            || c == '|'
}

fn push_dashed(v: &mut Vec<char>, s: &str, windows: bool)
    ensures
        final(v)@ == old(v)@ + dashed(s@, if windows { link_bad() } else { bundle_bad() }),
{
    let ghost bad = if windows { link_bad() } else { bundle_bad() };
    let cs = chars_of(s);
    let ghost start = v@;
    let mut k: usize = 0;
    while k < cs.len()
        invariant
            bad == (if windows { link_bad() } else { bundle_bad() }),
            cs@ == s@,
            k <= cs@.len(),
            v@ == start + dashed(cs@.take(k as int), bad),
        decreases cs.len() - k,
    {
        let c = cs[k];
        let hit = if windows {
            c == '\\' || c == '/' || c == ':' || c == '*' || c == '?' || c == '"' || c == '<' || c
                == '>' || c == '|'
        } else {
            c == '/'
        };
        assert(hit == bad(c));
        v.push(if hit { '-' } else { c });
        k = k + 1;
        assert(v@ =~= start + dashed(cs@.take(k as int), bad));
    }
    assert(cs@.take(k as int) =~= s@);
}

/// The desktop entry Linux launchers read: `name` shown, `exe` run on
/// `url`, `icon` the picture's path, and the `app_id` it was filed under.
pub open spec fn desktop_text(
    name: Seq<char>,
    exe: Seq<char>,
    url: Seq<char>,
    icon: Seq<char>,
    app_id: Seq<char>,
) -> Seq<char> {
    "[Desktop Entry]\nType=Application\nName="@ + name + "\nComment=An EUI application\nExec="@
        + quoted(Quoting::Exec, exe) + " "@ + quoted(Quoting::Exec, url) + "\nIcon="@ + icon
        + "\nTerminal=false\nCategories=Network;\nStartupWMClass=eui\nX-EUI-AppId="@ + app_id
        + "\n"@
}

/// A `.desktop` file for `app`, whose icon is at `icon` and whose client
/// is the binary at `exe`.
pub fn desktop_entry(app: &App, slug: &str, exe: &str, icon: &str) -> (r: String)
    ensures
        r@ == desktop_text(display_name(app.name@, slug@), exe@, app.url@, icon@, app.app_id@),
{
    let name = display(app.name.as_str(), slug);
    let mut v: Vec<char> = Vec::new();
    push_str(&mut v, "[Desktop Entry]\nType=Application\nName=");
    push_str(&mut v, name.as_str());
    push_str(&mut v, "\nComment=An EUI application\nExec=");
    push_str(&mut v, exec_arg(exe).as_str());
    push_str(&mut v, " ");
    push_str(&mut v, exec_arg(app.url.as_str()).as_str());
    push_str(&mut v, "\nIcon=");
    push_str(&mut v, icon);
    push_str(&mut v, "\nTerminal=false\nCategories=Network;\nStartupWMClass=eui\nX-EUI-AppId=");
    push_str(&mut v, app.app_id.as_str());
    push_str(&mut v, "\n");
    assert(v@ =~= desktop_text(name@, exe@, app.url@, icon@, app.app_id@));
    from_chars(v)
}

/// The name of the desktop entry's file.
pub fn desktop_file(slug: &str) -> (r: String)
    ensures
        r@ == "eui-"@ + slug@ + ".desktop"@,
{
    let mut v: Vec<char> = Vec::new();
    push_str(&mut v, "eui-");
    push_str(&mut v, slug);
    push_str(&mut v, ".desktop");
    from_chars(v)
}

/// The macOS bundle's directory: named for the application, as Finder,
/// Spotlight and the Dock show it, with no `/` in it.
pub fn bundle_dir(app: &App, slug: &str) -> (r: String)
    ensures
        r@ == dashed(display_name(app.name@, slug@), bundle_bad()) + ".app"@,
{
    let name = display(app.name.as_str(), slug);
    let mut v: Vec<char> = Vec::new();
    push_dashed(&mut v, name.as_str(), false);
    push_str(&mut v, ".app");
    from_chars(v)
}

/// The bundle's property list; everything in it but the shown name is
/// named for the slug.
pub open spec fn plist_text(name: Seq<char>, slug: Seq<char>) -> Seq<char> {
    "<?xml version=\"1.0\" encoding=\"UTF-8\"?>\n<!DOCTYPE plist PUBLIC \"-//Apple//DTD PLIST 1.0//EN\" \"http://www.apple.com/DTDs/PropertyList-1.0.dtd\">\n<plist version=\"1.0\">\n<dict>\n    <key>CFBundleName</key><string>"@
        + quoted(Quoting::Xml, name) + "</string>\n    <key>CFBundleDisplayName</key><string>"@
        + quoted(Quoting::Xml, name) + "</string>\n    <key>CFBundleIdentifier</key><string>net.eui.app."@
        + slug + "</string>\n    <key>CFBundleExecutable</key><string>"@ + slug
        + "</string>\n    <key>CFBundleIconFile</key><string>"@ + slug
        + "</string>\n    <key>CFBundlePackageType</key><string>APPL</string>\n    <key>CFBundleInfoDictionaryVersion</key><string>6.0</string>\n    <key>CFBundleShortVersionString</key><string>1.0</string>\n    <key>CFBundleVersion</key><string>1</string>\n    <key>LSMinimumSystemVersion</key><string>11.0</string>\n    <key>NSHighResolutionCapable</key><true/>\n    <key>NSPrincipalClass</key><string>NSApplication</string>\n</dict>\n</plist>\n"@
}

/// [`plist_text`] for `app`.
pub fn plist(app: &App, slug: &str) -> (r: String)
    ensures
        r@ == plist_text(display_name(app.name@, slug@), slug@),
{
    let name = display(app.name.as_str(), slug);
    let shown = xml(name.as_str());
    let mut v: Vec<char> = Vec::new();
    push_str(&mut v, "<?xml version=\"1.0\" encoding=\"UTF-8\"?>\n<!DOCTYPE plist PUBLIC \"-//Apple//DTD PLIST 1.0//EN\" \"http://www.apple.com/DTDs/PropertyList-1.0.dtd\">\n<plist version=\"1.0\">\n<dict>\n    <key>CFBundleName</key><string>");
    push_str(&mut v, shown.as_str());
    push_str(&mut v, "</string>\n    <key>CFBundleDisplayName</key><string>");
    push_str(&mut v, shown.as_str());
    push_str(&mut v, "</string>\n    <key>CFBundleIdentifier</key><string>net.eui.app.");
    push_str(&mut v, slug);
    push_str(&mut v, "</string>\n    <key>CFBundleExecutable</key><string>");
    push_str(&mut v, slug);
    push_str(&mut v, "</string>\n    <key>CFBundleIconFile</key><string>");
    push_str(&mut v, slug);
    push_str(&mut v, "</string>\n    <key>CFBundlePackageType</key><string>APPL</string>\n    <key>CFBundleInfoDictionaryVersion</key><string>6.0</string>\n    <key>CFBundleShortVersionString</key><string>1.0</string>\n    <key>CFBundleVersion</key><string>1</string>\n    <key>LSMinimumSystemVersion</key><string>11.0</string>\n    <key>NSHighResolutionCapable</key><true/>\n    <key>NSPrincipalClass</key><string>NSApplication</string>\n</dict>\n</plist>\n");
    assert(v@ =~= plist_text(name@, slug@));
    from_chars(v)
}

/// The bundle's binary: a script that becomes the client, on `url`.
pub fn stub(exe: &str, url: &str) -> (r: String)
    ensures
        r@ == "#!/bin/sh\nexec "@ + quoted(Quoting::Sh, exe@) + " "@ + quoted(Quoting::Sh, url@)
            + "\n"@,
{
    let mut v: Vec<char> = Vec::new();
    push_str(&mut v, "#!/bin/sh\nexec ");
    push_str(&mut v, sh(exe).as_str());
    push_str(&mut v, " ");
    push_str(&mut v, sh(url).as_str());
    push_str(&mut v, "\n");
    from_chars(v)
}

/// The Start menu shortcut's file: named for the application, with none
/// of the characters a Windows file name cannot hold.
pub fn link_file(app: &App, slug: &str) -> (r: String)
    ensures
        r@ == dashed(display_name(app.name@, slug@), link_bad()) + ".lnk"@,
{
    let name = display(app.name.as_str(), slug);
    let mut v: Vec<char> = Vec::new();
    push_dashed(&mut v, name.as_str(), true);
    push_str(&mut v, ".lnk");
    from_chars(v)
}

/// The PowerShell that has the shell make the shortcut at `link`, which
/// runs `exe` on `url` and shows the picture at `icon`.
pub open spec fn shortcut_text(link: Seq<char>, exe: Seq<char>, url: Seq<char>, icon: Seq<char>) -> Seq<
    char,
> {
    "$s = (New-Object -ComObject WScript.Shell).CreateShortcut("@ + quoted(Quoting::Ps, link)
        + "); $s.TargetPath = "@ + quoted(Quoting::Ps, exe) + "; $s.Arguments = "@ + quoted(
        Quoting::Ps,
        url,
    ) + "; $s.IconLocation = "@ + quoted(Quoting::Ps, icon)
        + "; $s.Description = 'An EUI application'; $s.Save()"@
}

/// [`shortcut_text`].
pub fn shortcut_script(link: &str, exe: &str, url: &str, icon: &str) -> (r: String)
    ensures
        r@ == shortcut_text(link@, exe@, url@, icon@),
{
    let mut v: Vec<char> = Vec::new();
    push_str(&mut v, "$s = (New-Object -ComObject WScript.Shell).CreateShortcut(");
    push_str(&mut v, ps(link).as_str());
    push_str(&mut v, "); $s.TargetPath = ");
    push_str(&mut v, ps(exe).as_str());
    push_str(&mut v, "; $s.Arguments = ");
    push_str(&mut v, ps(url).as_str());
    push_str(&mut v, "; $s.IconLocation = ");
    push_str(&mut v, ps(icon).as_str());
    push_str(&mut v, "; $s.Description = 'An EUI application'; $s.Save()");
    assert(v@ =~= shortcut_text(link@, exe@, url@, icon@));
    from_chars(v)
}


/// The files a Linux install writes, under the XDG data directory `home`:
/// the desktop entry first, which is what starts the application, then
/// the icon it names.
pub fn linux_files(home: &str, slug: &str) -> (r: Vec<String>)
    ensures
        r@.len() == 2,
        r@[0]@ == join(join(home@, "applications"@), "eui-"@ + slug@ + ".desktop"@),
        r@[1]@ == join(join(join(home@, "icons"@), "eui"@), slug@ + ".png"@),
{
    let apps = join_path(home, "applications");
    let desktop = join_path(apps.as_str(), desktop_file(slug).as_str());
    let icons = join_path(home, "icons");
    let mine = join_path(icons.as_str(), "eui");
    let mut v: Vec<char> = Vec::new();
    push_str(&mut v, slug);
    push_str(&mut v, ".png");
    let icon = join_path(mine.as_str(), from_chars(v).as_str());
    let mut out: Vec<String> = Vec::new();
    out.push(desktop);
    out.push(icon);
    out
}

/// The files a macOS install writes, under the home directory `home`: the
/// bundle alone, since removing an application is removing its bundle.
pub fn mac_files(home: &str, app: &App, slug: &str) -> (r: Vec<String>)
    ensures
        r@.len() == 1,
        r@[0]@ == join(join(home@, "Applications"@), dashed(display_name(app.name@, slug@), bundle_bad()) + ".app"@),
{
    let apps = join_path(home, "Applications");
    let bundle = join_path(apps.as_str(), bundle_dir(app, slug).as_str());
    let mut out: Vec<String> = Vec::new();
    out.push(bundle);
    out
}

/// The files a Windows install writes, under `%APPDATA%`: the Start menu
/// shortcut first, which is what starts the application, then its icon.
pub fn windows_files(appdata: &str, app: &App, slug: &str) -> (r: Vec<String>)
    ensures
        r@.len() == 2,
        r@[0]@ == join(
            join(join(join(join(appdata@, "Microsoft"@), "Windows"@), "Start Menu"@), "Programs"@),
            dashed(display_name(app.name@, slug@), link_bad()) + ".lnk"@,
        ),
        r@[1]@ == join(join(join(appdata@, "eui"@), "icons"@), slug@ + ".ico"@),
{
    let a = join_path(appdata, "Microsoft");
    let b = join_path(a.as_str(), "Windows");
    let c = join_path(b.as_str(), "Start Menu");
    let programs = join_path(c.as_str(), "Programs");
    let link = join_path(programs.as_str(), link_file(app, slug).as_str());
    let e = join_path(appdata, "eui");
    let icons = join_path(e.as_str(), "icons");
    let mut v: Vec<char> = Vec::new();
    push_str(&mut v, slug);
    push_str(&mut v, ".ico");
    let icon = join_path(icons.as_str(), from_chars(v).as_str());
    let mut out: Vec<String> = Vec::new();
    out.push(link);
    out.push(icon);
    out
}


/// Where this platform installs an application: the directory each kind
/// of desktop keeps its entries under.
pub enum Place {
    /// Linux: the XDG data directory.
    Linux(String),
    /// macOS: the home directory.
    Mac(String),
    /// Windows: `%APPDATA%`.
    Windows(String),
}

/// The files an install of `app`, filed as `slug`, writes at `place`: the
/// launcher entry first, which is what starts the application, and then
/// what it needs.
pub open spec fn files_for(place: Place, app: App, slug: Seq<char>) -> Seq<Seq<char>> {
    match place {
        Place::Linux(home) => seq![
            join(join(home@, "applications"@), "eui-"@ + slug + ".desktop"@),
            join(join(join(home@, "icons"@), "eui"@), slug + ".png"@),
        ],
        Place::Mac(home) => seq![
            join(join(home@, "Applications"@), dashed(display_name(app.name@, slug), bundle_bad()) + ".app"@),
        ],
        Place::Windows(appdata) => seq![
            join(
                join(join(join(join(appdata@, "Microsoft"@), "Windows"@), "Start Menu"@), "Programs"@),
                dashed(display_name(app.name@, slug), link_bad()) + ".lnk"@,
            ),
            join(join(join(appdata@, "eui"@), "icons"@), slug + ".ico"@),
        ],
    }
}

/// [`files_for`], as paths.
pub fn entry_files(place: &Place, app: &App, slug: &str) -> (r: Vec<String>)
    ensures
        strs(r@) == files_for(*place, *app, slug@),
        r@.len() > 0,
{
    let r = match place {
        Place::Linux(home) => linux_files(home.as_str(), slug),
        Place::Mac(home) => mac_files(home.as_str(), app, slug),
        Place::Windows(appdata) => windows_files(appdata.as_str(), app, slug),
    };
    assert(strs(r@) =~= files_for(*place, *app, slug@));
    r
}

} // verus!
