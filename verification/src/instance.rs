//! One process for every window: what a second `eui` says to the first
//! over the user's socket, and how the first reads it.
//!
//! The ask is lines of text: the protocol's hello with the build on both
//! ends, then the capability bits and whether the window has the shell's
//! chrome, then one address a line, then an empty line. The answer is
//! `ok`. Opening the socket and the windows is the caller's.

use vstd::prelude::*;

use crate::text::{
    chars_of, dec, from_chars, next_word, parse_u32, parse_u32_at, push_dec, push_str, split,
    split_ranges, string_of, trim, trim_end, trim_range, words_from, is_space_char, is_space,
    sep_joined, lemma_split_sep_joined, lemma_dec, lemma_two_words, is_digit_char,
};

verus! {

/// Most addresses one ask may carry.
pub const MAX_URLS: usize = 32;

/// An address to open, with the capabilities granted on its command line.
#[derive(Debug, PartialEq, Eq)]
pub struct Launch {
    pub url: String,
    pub allowed: u32,
}

/// One ask, as the running instance reads it.
#[derive(Debug, PartialEq, Eq)]
pub struct Opening {
    pub launches: Vec<Launch>,
    pub chrome: bool,
    pub allowed: u32,
}

/// The first line: the protocol's version and the build on both ends.
pub open spec fn hello_text(build: Seq<char>) -> Seq<char> {
    "eui-instance 1 "@ + build
}

pub fn hello(build: &str) -> (r: String)
    ensures
        r@ == hello_text(build@),
{
    let mut v: Vec<char> = Vec::new();
    push_str(&mut v, "eui-instance 1 ");
    push_str(&mut v, build);
    from_chars(v)
}

pub open spec fn url_lines(us: Seq<Seq<char>>) -> Seq<char>
    decreases us.len(),
{
    if us.len() == 0 {
        Seq::empty()
    } else {
        url_lines(us.drop_last()) + us.last() + "\n"@
    }
}

pub open spec fn launch_urls(ls: Seq<Launch>) -> Seq<Seq<char>> {
    ls.map_values(|l: Launch| l.url@)
}

pub open spec fn at_most<T>(s: Seq<T>, n: nat) -> Seq<T> {
    if s.len() <= n {
        s
    } else {
        s.take(n as int)
    }
}

/// The whole ask: hello, grant and chrome, at most [`MAX_URLS`] addresses,
/// and the empty line that ends it.
pub open spec fn ask_body(build: Seq<char>, urls: Seq<Seq<char>>, chrome: bool, allowed: u32) -> Seq<
    char,
> {
    hello_text(build) + "\n"@ + dec(allowed as nat) + " "@ + (if chrome {
        "1"@
    } else {
        "0"@
    }) + "\n"@ + url_lines(at_most(urls, MAX_URLS as nat)) + "\n"@
}

/// What a launcher writes to the running instance.
pub fn ask_text(build: &str, launches: &Vec<Launch>, chrome: bool, allowed: u32) -> (r: String)
    ensures
        r@ == ask_body(build@, launch_urls(launches@), chrome, allowed),
{
    let mut v: Vec<char> = Vec::new();
    push_str(&mut v, "eui-instance 1 ");
    push_str(&mut v, build);
    push_str(&mut v, "\n");
    push_dec(&mut v, allowed as u64);
    push_str(&mut v, " ");
    if chrome {
        push_str(&mut v, "1");
    } else {
        push_str(&mut v, "0");
    }
    push_str(&mut v, "\n");
    let ghost head = v@;
    let ghost us = launch_urls(launches@);
    let n = if launches.len() <= MAX_URLS {
        launches.len()
    } else {
        MAX_URLS
    };
    let mut k: usize = 0;
    while k < n
        invariant
            us == launch_urls(launches@),
            n <= launches@.len(),
            k <= n,
            v@ == head + url_lines(us.take(k as int)),
        decreases n - k,
    {
        push_str(&mut v, launches[k].url.as_str());
        push_str(&mut v, "\n");
        proof {
            assert(us.take(k + 1).drop_last() =~= us.take(k as int));
        }
        k = k + 1;
        assert(v@ =~= head + url_lines(us.take(k as int)));
    }
    assert(us.take(n as int) =~= at_most(us, MAX_URLS as nat));
    push_str(&mut v, "\n");
    from_chars(v)
}

/// Whether the instance's answer says it took the launch.
pub fn answered(said: &str) -> (r: bool)
    ensures
        r == (trim(said@) == "ok"@),
{
    let cs = chars_of(said);
    let (a, b) = trim_range(&cs, 0, cs.len());
    assert(cs@.subrange(0, cs@.len() as int) =~= cs@);
    proof {
        reveal_strlit("ok");
        assert("ok"@.len() == 2 && "ok"@[0] == 'o' && "ok"@[1] == 'k');
    }
    let r = b - a == 2 && cs[a] == 'o' && cs[a + 1] == 'k';
    if b - a == 2 {
        assert(r == (cs@.subrange(a as int, b as int) =~= "ok"@));
    }
    r
}

/// A piece with its trailing carriage returns off.
pub open spec fn strip_cr(p: Seq<char>) -> Seq<char>
    decreases p.len(),
{
    if p.len() > 0 && p.last() == '\r' {
        strip_cr(p.drop_last())
    } else {
        p
    }
}

/// The addresses: a line each until an empty one or the end.
pub open spec fn url_run(ps: Seq<Seq<char>>) -> Seq<Seq<char>>
    decreases ps.len(),
{
    if ps.len() == 0 || strip_cr(ps[0]).len() == 0 {
        Seq::empty()
    } else {
        seq![strip_cr(ps[0])] + url_run(ps.drop_first())
    }
}

/// What an ask says: the addresses, whether the window has chrome, and
/// the grant. None when its first line is not this build's hello, or the
/// second does not start with a number.
pub open spec fn asked(t: Seq<char>, build: Seq<char>) -> Option<(Seq<Seq<char>>, bool, u32)> {
    let ps = split(t, '\n');
    let second = if ps.len() > 1 {
        ps[1]
    } else {
        Seq::empty()
    };
    let ws = words_from(second, 0);
    if trim_end(ps[0]) != hello_text(build) {
        None
    } else if ws.len() == 0 {
        None
    } else {
        match parse_u32(ws[0]) {
            None => None,
            Some(allowed) => Some(
                (
                    at_most(url_run(ps.skip(2)), MAX_URLS as nat),
                    ws.len() >= 2 && ws[1] == "1"@,
                    allowed,
                ),
            ),
        }
    }
}

fn copy_range(cs: &Vec<char>, a: usize, b: usize) -> (v: Vec<char>)
    requires
        a <= b <= cs@.len(),
    ensures
        v@ == cs@.subrange(a as int, b as int),
{
    let mut v: Vec<char> = Vec::new();
    let mut k = a;
    while k < b
        invariant
            a <= k <= b <= cs@.len(),
            v@ == cs@.subrange(a as int, k as int),
        decreases b - k,
    {
        v.push(cs[k]);
        k = k + 1;
        assert(v@ =~= cs@.subrange(a as int, k as int));
    }
    v
}

fn same_chars(a: &Vec<char>, b: &Vec<char>) -> (r: bool)
    ensures
        r == (a@ == b@),
{
    if a.len() != b.len() {
        return false;
    }
    let mut k: usize = 0;
    while k < a.len()
        invariant
            a@.len() == b@.len(),
            k <= a@.len(),
            forall|j: int| 0 <= j < k ==> a@[j] == b@[j],
        decreases a.len() - k,
    {
        if a[k] != b[k] {
            return false;
        }
        k = k + 1;
    }
    assert(a@ =~= b@);
    true
}

fn trim_end_of(v: &Vec<char>) -> (r: Vec<char>)
    ensures
        r@ == trim_end(v@),
{
    let mut b = v.len();
    assert(v@.take(b as int) =~= v@);
    while b > 0 && is_space_char(v[b - 1])
        invariant
            b <= v@.len(),
            trim_end(v@.take(b as int)) == trim_end(v@),
        decreases b,
    {
        assert(v@.take(b as int).drop_last() =~= v@.take(b - 1));
        b = b - 1;
    }
    let r = copy_range(v, 0, b);
    assert(r@ =~= v@.take(b as int));
    r
}

/// One ask, or none if it is not one of ours.
pub fn read_ask(text: &str, build: &str) -> (r: Option<Opening>)
    ensures
        match asked(text@, build@) {
            None => r is None,
            Some((urls, chrome, allowed)) => r matches Some(o) && launch_urls(o.launches@) == urls
                && o.chrome == chrome && o.allowed == allowed && forall|k: int|
                0 <= k < o.launches@.len() ==> (#[trigger] o.launches@[k]).allowed == allowed,
        },
{
    let cs = chars_of(text);
    let n = cs.len();
    let ghost t = cs@;
    let rs = split_ranges(&cs, 0, n, '\n');
    assert(cs@.subrange(0, n as int) =~= t);
    let ghost ps = split(t, '\n');
    let first = copy_range(&cs, rs[0].0, rs[0].1);
    let first_t = trim_end_of(&first);
    let h = chars_of(hello(build).as_str());
    if !same_chars(&first_t, &h) {
        return None;
    }
    let second = if rs.len() > 1 {
        copy_range(&cs, rs[1].0, rs[1].1)
    } else {
        Vec::new()
    };
    let ghost second_t = if ps.len() > 1 {
        ps[1]
    } else {
        Seq::<char>::empty()
    };
    assert(second@ =~= second_t);
    let w0 = next_word(&second, 0);
    let (a0, b0) = match w0 {
        None => return None,
        Some(x) => x,
    };
    let allowed = match parse_u32_at(&second, a0, b0) {
        None => return None,
        Some(v) => v,
    };
    let w1 = next_word(&second, b0);
    let chrome = match w1 {
        None => false,
        Some((a1, b1)) => b1 - a1 == 1 && second[a1] == '1',
    };
    proof {
        reveal_strlit("1");
        assert("1"@.len() == 1 && "1"@[0] == '1');
        if let Some((a1, b1)) = w1 {
            if b1 - a1 == 1 {
                assert(chrome == (second@.subrange(a1 as int, b1 as int) =~= "1"@));
            }
        }
    }
    let mut launches: Vec<Launch> = Vec::new();
    let mut q: usize = 2;
    let mut stopped = false;
    while q < rs.len() && !stopped && launches.len() < MAX_URLS
        invariant
            t == cs@,
            ps == split(t, '\n'),
            rs@.len() == ps.len(),
            forall|k: int|
                0 <= k < rs@.len() ==> 0 <= (#[trigger] rs@[k]).0 <= rs@[k].1 <= n && cs@.subrange(
                    rs@[k].0 as int,
                    rs@[k].1 as int,
                ) == ps[k],
            n == cs@.len(),
            2 <= q,
            q <= rs@.len() || rs@.len() < 2,
            launches@.len() <= MAX_URLS,
            forall|k: int| 0 <= k < launches@.len() ==> (#[trigger] launches@[k]).allowed == allowed,
            !stopped ==> q <= ps.len() && url_run(ps.skip(2)) == launch_urls(launches@) + url_run(
                ps.skip(q as int),
            ),
            stopped ==> url_run(ps.skip(2)) == launch_urls(launches@),
        decreases 2 * (rs@.len() - q) + (if stopped { 0int } else { 1int }),
    {
        let (a, b0) = rs[q];
        let mut b = b0;
        while b > a && cs[b - 1] == '\r'
            invariant
                a <= b <= b0 <= cs@.len(),
                strip_cr(cs@.subrange(a as int, b as int)) == strip_cr(
                    cs@.subrange(a as int, b0 as int),
                ),
            decreases b,
        {
            assert(cs@.subrange(a as int, b as int).drop_last() =~= cs@.subrange(a as int, b - 1));
            b = b - 1;
        }
        let ghost p = ps[q as int];
        assert(strip_cr(p) == cs@.subrange(a as int, b as int));
        assert(ps.skip(q as int)[0] == p);
        assert(ps.skip(q as int).drop_first() =~= ps.skip(q + 1));
        if a == b {
            stopped = true;
        } else {
            launches.push(Launch { url: string_of(&cs, a, b), allowed });
            q = q + 1;
            assert(launch_urls(launches@) =~= launch_urls(launches@).drop_last().push(strip_cr(p)));
        }
    }
    proof {
        if !stopped {
            if q >= rs@.len() {
                assert(ps.skip(q as int) =~= Seq::<Seq<char>>::empty());
            }
        }
    }
    assert(at_most(url_run(ps.skip(2)), MAX_URLS as nat) == launch_urls(launches@)) by {
        lemma_run_prefix(ps.skip(2), launch_urls(launches@), stopped, q, ps);
    }
    Some(Opening { launches, chrome, allowed })
}

proof fn lemma_run_prefix(all: Seq<Seq<char>>, got: Seq<Seq<char>>, stopped: bool, q: usize, ps: Seq<
    Seq<char>,
>)
    requires
        got.len() <= MAX_URLS,
        all == ps.skip(2),
        stopped ==> url_run(all) == got,
        !stopped ==> url_run(all) == got + url_run(ps.skip(q as int)),
        !stopped ==> (q >= ps.len() || got.len() == MAX_URLS),
        !stopped && q >= ps.len() ==> url_run(ps.skip(q as int)) == Seq::<Seq<char>>::empty(),
    ensures
        at_most(url_run(all), MAX_URLS as nat) == got,
{
    if !stopped && q < ps.len() {
        assert((got + url_run(ps.skip(q as int))).take(MAX_URLS as int) =~= got);
    }
}

/// Each line with a newline before it.
spec fn after_newlines(us: Seq<Seq<char>>) -> Seq<char>
    decreases us.len(),
{
    if us.len() == 0 {
        Seq::empty()
    } else {
        after_newlines(us.drop_last()) + seq!['\n'] + us.last()
    }
}

proof fn lemma_newline_shift(us: Seq<Seq<char>>)
    ensures
        seq!['\n'] + url_lines(us) == after_newlines(us) + seq!['\n'],
    decreases us.len(),
{
    reveal_strlit("\n");
    assert("\n"@ =~= seq!['\n']);
    if us.len() == 0 {
        assert(seq!['\n'] + url_lines(us) =~= after_newlines(us) + seq!['\n']);
    } else {
        lemma_newline_shift(us.drop_last());
        assert(seq!['\n'] + url_lines(us) =~= after_newlines(us) + seq!['\n']);
    }
}

proof fn lemma_sep_joined_more(p: Seq<Seq<char>>, us: Seq<Seq<char>>)
    requires
        p.len() >= 1,
    ensures
        sep_joined(p + us, '\n') == sep_joined(p, '\n') + after_newlines(us),
    decreases us.len(),
{
    if us.len() == 0 {
        assert(p + us =~= p);
        assert(sep_joined(p, '\n') + after_newlines(us) =~= sep_joined(p, '\n'));
    } else {
        lemma_sep_joined_more(p, us.drop_last());
        assert((p + us).drop_last() =~= p + us.drop_last());
        assert((p + us).last() == us.last());
        assert(sep_joined(p + us, '\n') =~= sep_joined(p, '\n') + after_newlines(us));
    }
}

proof fn lemma_run_of_lines(us: Seq<Seq<char>>)
    requires
        forall|k: int| 0 <= k < us.len() ==> (#[trigger] us[k]).len() > 0 && us[k].last() != '\r',
    ensures
        url_run(us + seq![Seq::<char>::empty(), Seq::<char>::empty()]) == us,
    decreases us.len(),
{
    let e = Seq::<char>::empty();
    let ps = us + seq![e, e];
    if us.len() == 0 {
        assert(ps[0] == e);
        assert(strip_cr(e) == e);
    } else {
        assert(ps[0] == us[0]);
        assert(strip_cr(us[0]) == us[0]);
        let rest = us.drop_first();
        assert forall|k: int| 0 <= k < rest.len() implies (#[trigger] rest[k]).len() > 0 && rest[k].last()
            != '\r' by {
            assert(rest[k] == us[k + 1]);
        }
        lemma_run_of_lines(rest);
        assert(ps.drop_first() =~= rest + seq![e, e]);
        assert(url_run(ps) =~= us);
    }
}

/// An address a launch can carry: one line, not empty, not ending in a
/// carriage return.
pub open spec fn one_line(u: Seq<char>) -> bool {
    u.len() > 0 && u.last() != '\r' && forall|k: int| 0 <= k < u.len() ==> u[k] != '\n'
}

/// What a launcher writes is what the running instance reads: the same
/// addresses (as many as a message carries), the same chrome and the same
/// grant, when the build is one line ending in something other than
/// whitespace and every address is one line.
pub proof fn lemma_ask_round_trip(build: Seq<char>, urls: Seq<Seq<char>>, chrome: bool, allowed: u32)
    requires
        build.len() > 0,
        !is_space(build.last()),
        forall|k: int| 0 <= k < build.len() ==> build[k] != '\n',
        forall|k: int| 0 <= k < urls.len() ==> one_line(#[trigger] urls[k]),
    ensures
        asked(ask_body(build, urls, chrome, allowed), build) == Some(
            (at_most(urls, MAX_URLS as nat), chrome, allowed),
        ),
{
    reveal_strlit("\n");
    reveal_strlit(" ");
    reveal_strlit("1");
    reveal_strlit("0");
    reveal_strlit("eui-instance 1 ");
    assert("\n"@ =~= seq!['\n']);
    assert(" "@ =~= seq![' ']);
    assert("1"@ =~= seq!['1']);
    assert("0"@ =~= seq!['0']);
    assert("eui-instance 1 "@.len() == 15);
    let e = Seq::<char>::empty();
    let h = hello_text(build);
    let c = if chrome {
        "1"@
    } else {
        "0"@
    };
    let d = dec(allowed as nat);
    let l2 = d + " "@ + c;
    let us = at_most(urls, MAX_URLS as nat);
    assert forall|k: int| 0 <= k < us.len() implies one_line(#[trigger] us[k]) by {
        assert(us[k] == urls[k]);
    }
    let p2 = seq![h, l2];
    let ps = p2 + us + seq![e, e];
    // The ask is its lines with a newline between each two.
    lemma_sep_joined_more(p2, us);
    lemma_newline_shift(us);
    assert(p2.drop_last() =~= seq![h]);
    assert(sep_joined(seq![h], '\n') == h);
    assert(p2.last() == l2);
    assert(sep_joined(p2, '\n') == h + seq!['\n'] + l2);
    let p3 = p2 + us + seq![e];
    assert(ps.drop_last() =~= p3);
    assert(ps.last() == e);
    assert(p3.drop_last() =~= p2 + us);
    assert(p3.last() == e);
    assert(sep_joined(p3, '\n') == sep_joined(p2 + us, '\n') + seq!['\n'] + e);
    assert(sep_joined(ps, '\n') == sep_joined(p3, '\n') + seq!['\n'] + e);
    let tail = after_newlines(us);
    assert(sep_joined(ps, '\n') =~= h + seq!['\n'] + l2 + tail + seq!['\n'] + seq!['\n']);
    assert(seq!['\n'] + url_lines(us) == tail + seq!['\n']);
    assert(ask_body(build, urls, chrome, allowed) == h + "\n"@ + d + " "@ + c + "\n"@ + url_lines(us)
        + "\n"@);
    assert(h + seq!['\n'] + l2 + (seq!['\n'] + url_lines(us)) + seq!['\n'] =~= h + "\n"@ + d + " "@ + c
        + "\n"@ + url_lines(us) + "\n"@);
    assert(sep_joined(ps, '\n') =~= ask_body(build, urls, chrome, allowed));
    // No line holds a newline.
    lemma_dec(allowed as nat);
    assert forall|k: int| 0 <= k < d.len() implies #[trigger] d[k] != '\n' by {
        assert(is_digit_char(d[k]));
    }
    assert forall|j: int, k: int| 0 <= j < ps.len() && 0 <= k < ps[j].len() implies #[trigger] ps[j][k]
        != '\n' by {
        if j == 0 {
            if k >= 15 {
                assert(h[k] == build[k - 15]);
            }
        } else if j == 1 {
            if k < d.len() {
                assert(l2[k] == d[k]);
            }
        } else if j < 2 + us.len() {
            assert(ps[j] == us[j - 2]);
            assert(one_line(us[j - 2]));
        }
    }
    lemma_split_sep_joined(ps, '\n');
    let ts = split(ask_body(build, urls, chrome, allowed), '\n');
    assert(ts == ps);
    // The hello is the first line as it stands.
    assert(h.last() == build.last());
    assert(trim_end(h) == h);
    // The second line is the grant and the chrome.
    assert(ts[1] == l2);
    lemma_two_words(d, c, e);
    assert(l2 + e =~= l2);
    assert(words_from(l2, 0) == seq![d, c]);
    assert(crate::text::unsigned_part(d) == d);
    assert(parse_u32(d) == Some(allowed));
    // The rest are the addresses, up to the empty line.
    assert(ts.skip(2) =~= us + seq![e, e]);
    assert forall|k: int| 0 <= k < us.len() implies (#[trigger] us[k]).len() > 0 && us[k].last() != '\r' by {
        assert(one_line(us[k]));
    }
    lemma_run_of_lines(us);
    assert(url_run(ts.skip(2)) == us);
    assert(at_most(us, MAX_URLS as nat) == us);
    let second = if ts.len() > 1 {
        ts[1]
    } else {
        Seq::empty()
    };
    assert(second == l2);
    let ws = words_from(second, 0);
    assert(ws == seq![d, c]);
    assert(ws.len() >= 2);
    assert(ws[1] == c);
    if !chrome {
        assert(c[0] == '0');
        assert("1"@[0] == '1');
        assert(c != "1"@);
    }
    assert((ws[1] == "1"@) == chrome);
    assert(trim_end(ts[0]) == hello_text(build));
}

} // verus!
