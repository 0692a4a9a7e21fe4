//! The application's manifest: whether its publisher's signature holds,
//! whether the two protocol ranges meet, and what the pinned key says; and
//! where a pin or a grant for an origin and an `app_id` is kept.
//!
//! Fetching, decoding the record and touching the pin files are the
//! caller's. The decisions are here.

use vstd::prelude::*;

use vstd::utf8::encode_utf8;

use crate::install::is_upper;
use crate::text::{
    chars_of, dec, from_chars, lemma_dec, lemma_two_words, next_word, parse_u32, parse_u32_at,
    push_dec, push_str, trim, trim_range, words,
};

verus! {

/// The oldest protocol this client still speaks.
pub const SPEAKS_FROM: u32 = 2;

/// Why a manifest was refused.
#[derive(Debug, PartialEq, Eq)]
pub enum ManifestError {
    /// The server did not serve one.
    Fetch(String),
    /// The bytes are not a manifest record.
    Decode(String),
    /// The signature does not verify under the manifest's own key.
    BadSignature,
    /// The pinned key for this origin and `app_id` differs and no valid
    /// rotation was offered.
    KeyChanged,
    /// The server speaks no protocol version this client does.
    Protocol {
        /// The server's lowest version.
        min: u32,
        /// The server's highest version.
        max: u32,
    },
    /// The pin store could not be read or written.
    Pins(String),
}

/// What an application asked for last time, and what it was given.
#[derive(Debug, Clone, Copy, PartialEq, Eq, Structural)]
pub struct Answered {
    /// The capabilities the sheet showed.
    pub asked: u32,
    /// The ones ticked when it was answered.
    pub granted: u32,
}

/// A key's handover to its successor, signed by the key it replaces.
pub struct Rotation {
    pub previous_key: [u8; 32],
    pub signature: Vec<u8>,
}

/// What a decoded manifest says that the checks read.
pub struct Signed {
    /// The publisher's Ed25519 key.
    pub publisher_key: [u8; 32],
    /// The bytes the signature is over.
    pub signed_bytes: Vec<u8>,
    pub signature: Vec<u8>,
    pub protocol_min: u32,
    pub protocol_max: u32,
    pub rotation: Option<Rotation>,
}

/// What reading the pin file gave.
pub enum Pinned {
    /// The key pinned for this origin and `app_id`.
    Key(Vec<u8>),
    /// No pin yet: trust on first use.
    Missing,
    /// The store could not be read, and why.
    Unreadable(String),
}

/// What is owed to the pin file once a manifest is accepted.
#[derive(Debug, PartialEq, Eq, Structural)]
pub enum PinStep {
    /// The pin already says this key.
    Keep,
    /// Write the publisher's key as the pin.
    Write,
}

/// The verdict on a manifest, as the contract states it.
pub enum Verdict {
    Keep,
    Write,
    BadSignature,
    Protocol(u32, u32),
    KeyChanged,
    Unreadable,
}

/// Whether ring's Ed25519 verification accepts `sig` as `key`'s over `msg`.
pub uninterp spec fn ed25519_accepts(key: Seq<u8>, msg: Seq<u8>, sig: Seq<u8>) -> bool;

/// `ring::signature::UnparsedPublicKey::new(&ED25519, key).verify(msg, sig)`:
/// `true` when it returns `Ok`. Its source refuses any key that is not 32
/// bytes and any signature that is not 64 before it computes anything.
#[verifier::external_body]
fn ed25519_verify(key: &[u8], msg: &[u8], sig: &[u8]) -> (ok: bool)
    ensures
        ok == ed25519_accepts(key@, msg@, sig@),
        ok ==> key@.len() == 32 && sig@.len() == 64,
{
    ring::signature::UnparsedPublicKey::new(&ring::signature::ED25519, key).verify(msg, sig).is_ok()
}

/// The two protocol ranges meet: the server's lowest is one this client
/// knows and its highest is not below what this client still speaks.
pub open spec fn ranges_meet(min: u32, max: u32, version: u32) -> bool {
    min <= version && max >= SPEAKS_FROM
}

/// The verdict on a manifest, from what the signature checks said:
/// `sig_ok` for the manifest's own, and for a rotation its previous key
/// with whether its signature over the new key checks. The signature
/// first, then the protocol ranges, then the pin. A pin that differs is
/// accepted only through a rotation from exactly the pinned key, signed by
/// it.
pub open spec fn judged(
    sig_ok: bool,
    min: u32,
    max: u32,
    version: u32,
    key: Seq<u8>,
    rotation: Option<(Seq<u8>, bool)>,
    pinned: Option<Option<Seq<u8>>>,
) -> Verdict {
    if !sig_ok {
        Verdict::BadSignature
    } else if !ranges_meet(min, max, version) {
        Verdict::Protocol(min, max)
    } else {
        match pinned {
            Some(Some(p)) => if p == key {
                Verdict::Keep
            } else {
                match rotation {
                    Some((prev, ok)) => if prev == p && ok {
                        Verdict::Write
                    } else {
                        Verdict::KeyChanged
                    },
                    None => Verdict::KeyChanged,
                }
            },
            Some(None) => Verdict::Write,
            None => Verdict::Unreadable,
        }
    }
}

/// [`judged`], with ring's answers to the two signature checks.
pub open spec fn verdict(
    key: Seq<u8>,
    signed: Seq<u8>,
    sig: Seq<u8>,
    min: u32,
    max: u32,
    version: u32,
    rotation: Option<(Seq<u8>, Seq<u8>)>,
    pinned: Option<Option<Seq<u8>>>,
) -> Verdict {
    judged(
        ed25519_accepts(key, signed, sig),
        min,
        max,
        version,
        key,
        match rotation {
            Some((prev, rsig)) => Some((prev, ed25519_accepts(prev, key, rsig))),
            None => None,
        },
        pinned,
    )
}

pub open spec fn rotation_view(r: Option<Rotation>) -> Option<(Seq<u8>, Seq<u8>)> {
    match r {
        Some(r) => Some((r.previous_key@, r.signature@)),
        None => None,
    }
}

pub open spec fn pinned_view(p: Pinned) -> Option<Option<Seq<u8>>> {
    match p {
        Pinned::Key(k) => Some(Some(k@)),
        Pinned::Missing => Some(None),
        Pinned::Unreadable(_) => None,
    }
}

/// The result that says verdict `v`, with the reason an unreadable store
/// gave.
pub open spec fn says(r: Result<PinStep, ManifestError>, v: Verdict, why: Seq<char>) -> bool {
    match v {
        Verdict::Keep => r == Ok::<PinStep, ManifestError>(PinStep::Keep),
        Verdict::Write => r == Ok::<PinStep, ManifestError>(PinStep::Write),
        Verdict::BadSignature => r matches Err(ManifestError::BadSignature),
        Verdict::Protocol(min, max) => r matches Err(ManifestError::Protocol { min: a, max: b })
            && a == min && b == max,
        Verdict::KeyChanged => r matches Err(ManifestError::KeyChanged),
        Verdict::Unreadable => r matches Err(ManifestError::Pins(e)) && e@ == why,
    }
}

fn bytes_eq(a: &[u8], b: &[u8]) -> (r: bool)
    ensures
        r == (a@ == b@),
{
    if a.len() != b.len() {
        return false;
    }
    let mut k: usize = 0;
    while k < a.len()
        invariant
            a@.len() == b@.len(),
            k <= a@.len(),
            forall|j: int| 0 <= j < k ==> a@[j] == b@[j],
        decreases a.len() - k,
    {
        if a[k] != b[k] {
            return false;
        }
        k = k + 1;
    }
    assert(a@ =~= b@);
    true
}

/// The reason an unreadable pin store gave, or nothing.
pub open spec fn unreadable_why(p: Pinned) -> Seq<char> {
    match p {
        Pinned::Unreadable(why) => why@,
        _ => Seq::empty(),
    }
}

/// The decision once the signatures are checked: `sig_ok` for the
/// manifest's, and for a rotation its previous key with whether its
/// signature over `key` checks. `Ok` says what the pin file is owed.
pub fn judge(
    sig_ok: bool,
    min: u32,
    max: u32,
    version: u32,
    key: &[u8],
    rotation: Option<(&[u8], bool)>,
    pinned: Pinned,
) -> (r: Result<PinStep, ManifestError>)
    ensures
        says(
            r,
            judged(
                sig_ok,
                min,
                max,
                version,
                key@,
                match rotation {
                    Some((prev, ok)) => Some((prev@, ok)),
                    None => None,
                },
                pinned_view(pinned),
            ),
            unreadable_why(pinned),
        ),
{
    if !sig_ok {
        return Err(ManifestError::BadSignature);
    }
    if min > version || max < SPEAKS_FROM {
        return Err(ManifestError::Protocol { min, max });
    }
    match pinned {
        Pinned::Key(p) => {
            if bytes_eq(p.as_slice(), key) {
                Ok(PinStep::Keep)
            } else {
                match rotation {
                    Some((prev, ok)) => {
                        if bytes_eq(prev, p.as_slice()) && ok {
                            Ok(PinStep::Write)
                        } else {
                            Err(ManifestError::KeyChanged)
                        }
                    },
                    None => Err(ManifestError::KeyChanged),
                }
            }
        },
        Pinned::Missing => Ok(PinStep::Write),
        Pinned::Unreadable(why) => Err(ManifestError::Pins(why)),
    }
}

/// Check a decoded manifest against what this client speaks (`version`)
/// and against the pin read for its origin and `app_id`. `Ok` says what
/// the pin file is owed.
pub fn verify(m: &Signed, version: u32, pinned: Pinned) -> (r: Result<PinStep, ManifestError>)
    ensures
        says(
            r,
            verdict(
                m.publisher_key@,
                m.signed_bytes@,
                m.signature@,
                m.protocol_min,
                m.protocol_max,
                version,
                rotation_view(m.rotation),
                pinned_view(pinned),
            ),
            unreadable_why(pinned),
        ),
{
    let sig_ok = ed25519_verify(m.publisher_key.as_slice(), m.signed_bytes.as_slice(), m.signature.as_slice());
    // The rotation's own signature matters only where its previous key is
    // the pinned one, and is checked only there.
    let rotation: Option<(&[u8], bool)> = match &m.rotation {
        Some(rot) => {
            let from_pin = match &pinned {
                Pinned::Key(p) => bytes_eq(rot.previous_key.as_slice(), p.as_slice()),
                _ => false,
            };
            let ok = from_pin && ed25519_verify(
                rot.previous_key.as_slice(),
                m.publisher_key.as_slice(),
                rot.signature.as_slice(),
            );
            Some((rot.previous_key.as_slice(), ok))
        },
        None => None,
    };
    judge(sig_ok, m.protocol_min, m.protocol_max, version, m.publisher_key.as_slice(), rotation, pinned)
}

// ------------------------------------------------------------ where things go

/// `PathBuf::join` of one component, with `/` between: an absolute
/// component replaces, and no separator is doubled.
pub open spec fn join(base: Seq<char>, p: Seq<char>) -> Seq<char> {
    if p.len() > 0 && p[0] == '/' {
        p
    } else if base.len() == 0 || base.last() == '/' {
        base + p
    } else {
        base + seq!['/'] + p
    }
}

pub fn join_path(base: &str, p: &str) -> (r: String)
    ensures
        r@ == join(base@, p@),
{
    let b = chars_of(base);
    let q = chars_of(p);
    let mut v: Vec<char> = Vec::new();
    if q.len() > 0 && q[0] == '/' {
        return from_chars(q);
    }
    let mut k: usize = 0;
    while k < b.len()
        invariant
            k <= b@.len(),
            v@ == b@.take(k as int),
        decreases b.len() - k,
    {
        v.push(b[k]);
        k = k + 1;
        assert(v@ =~= b@.take(k as int));
    }
    assert(b@.take(k as int) =~= b@);
    if !(b.len() == 0 || b[b.len() - 1] == '/') {
        v.push('/');
    }
    let ghost mid = v@;
    let mut j: usize = 0;
    while j < q.len()
        invariant
            j <= q@.len(),
            v@ == mid + q@.take(j as int),
        decreases q.len() - j,
    {
        v.push(q[j]);
        j = j + 1;
        assert(v@ =~= mid + q@.take(j as int));
    }
    assert(q@.take(j as int) =~= q@);
    from_chars(v)
}

/// The corner of the person's configuration this client keeps things in,
/// from `$XDG_CONFIG_HOME`, `%APPDATA%` and `$HOME`, in that order.
pub fn config_dir(xdg: Option<&str>, appdata: Option<&str>, home: Option<&str>) -> (r: Option<
    String,
>)
    ensures
        match (xdg, appdata, home) {
            (Some(d), _, _) => r matches Some(p) && p@ == join(d@, "eui"@),
            (None, Some(d), _) => r matches Some(p) && p@ == join(d@, "eui"@),
            (None, None, Some(h)) => r matches Some(p) && p@ == join(join(h@, ".config"@), "eui"@),
            (None, None, None) => r is None,
        },
{
    match (xdg, appdata, home) {
        (Some(d), _, _) => Some(join_path(d, "eui")),
        (None, Some(d), _) => Some(join_path(d, "eui")),
        (None, None, Some(h)) => {
            let c = join_path(h, ".config");
            Some(join_path(c.as_str(), "eui"))
        },
        (None, None, None) => None,
    }
}

pub open spec fn lowered(s: Seq<char>) -> Seq<char> {
    s.map_values(|c: char| if is_upper(c) { ((c as u32) + 32) as char } else { c })
}

pub open spec fn strip_slashes(s: Seq<char>) -> Seq<char>
    decreases s.len(),
{
    if s.len() > 0 && s.last() == '/' {
        strip_slashes(s.drop_last())
    } else {
        s
    }
}

pub open spec fn starts(s: Seq<char>, p: Seq<char>) -> bool {
    p.len() <= s.len() && s.take(p.len() as int) == p
}

pub open spec fn ends(s: Seq<char>, p: Seq<char>) -> bool {
    p.len() <= s.len() && s.skip(s.len() - p.len()) == p
}

/// `origin` as one spelling: trimmed, trailing slashes off, lowered, and
/// the scheme's default port dropped.
pub open spec fn normal_origin(origin: Seq<char>) -> Seq<char> {
    let o = lowered(strip_slashes(trim(origin)));
    if starts(o, "https://"@) && ends(o, ":443"@) {
        o.take(o.len() - 4)
    } else if starts(o, "http://"@) && ends(o, ":80"@) {
        o.take(o.len() - 3)
    } else if starts(o, "wss://"@) && ends(o, ":443"@) {
        o.take(o.len() - 4)
    } else if starts(o, "ws://"@) && ends(o, ":80"@) {
        o.take(o.len() - 3)
    } else {
        o
    }
}

pub(crate) fn has_prefix(s: &Vec<char>, p: &str) -> (r: bool)
    ensures
        r == starts(s@, p@),
{
    let q = chars_of(p);
    if q.len() > s.len() {
        return false;
    }
    let mut k: usize = 0;
    while k < q.len()
        invariant
            q@ == p@,
            q@.len() <= s@.len(),
            k <= q@.len(),
            forall|j: int| 0 <= j < k ==> s@[j] == q@[j],
        decreases q.len() - k,
    {
        if s[k] != q[k] {
            assert(s@.take(q@.len() as int)[k as int] != q@[k as int]);
            return false;
        }
        k = k + 1;
    }
    assert(s@.take(q@.len() as int) =~= q@);
    true
}

fn has_suffix(s: &Vec<char>, p: &str) -> (r: bool)
    ensures
        r == ends(s@, p@),
{
    let q = chars_of(p);
    if q.len() > s.len() {
        return false;
    }
    let sl = s.len();
    let off = sl - q.len();
    let mut k: usize = 0;
    while k < q.len()
        invariant
            sl == s@.len(),
            q@ == p@,
            off + q@.len() == s@.len(),
            k <= q@.len(),
            forall|j: int| 0 <= j < k ==> s@[off + j] == q@[j],
        decreases q.len() - k,
    {
        assert(off + k < sl);
        if s[off + k] != q[k] {
            assert(s@.skip(off as int)[k as int] != q@[k as int]);
            return false;
        }
        k = k + 1;
    }
    assert(s@.skip(off as int) =~= q@);
    true
}

pub fn normal(origin: &str) -> (r: String)
    ensures
        r@ == normal_origin(origin@),
{
    let cs = chars_of(origin);
    let (a, b0) = trim_range(&cs, 0, cs.len());
    assert(cs@.subrange(0, cs@.len() as int) =~= cs@);
    let mut b = b0;
    while b > a && cs[b - 1] == '/'
        invariant
            a <= b <= b0 <= cs@.len(),
            strip_slashes(cs@.subrange(a as int, b as int)) == strip_slashes(
                cs@.subrange(a as int, b0 as int),
            ),
        decreases b - a,
    {
        assert(cs@.subrange(a as int, b as int).drop_last() =~= cs@.subrange(a as int, b - 1));
        b = b - 1;
    }
    let ghost t = cs@.subrange(a as int, b as int);
    assert(strip_slashes(t) == t);
    let mut o: Vec<char> = Vec::new();
    let mut k = a;
    while k < b
        invariant
            a <= k <= b <= cs@.len(),
            t == cs@.subrange(a as int, b as int),
            o@ == lowered(t.take(k - a)),
        decreases b - k,
    {
        let c = cs[k];
        let v = c as u32;
        if 65 <= v && v <= 90 {
            o.push(((v as u8) + 32) as char);
        } else {
            o.push(c);
        }
        k = k + 1;
        assert(o@ =~= lowered(t.take(k - a)));
    }
    assert(t.take(k - a) =~= t);
    let n = o.len();
    proof {
        reveal_strlit(":443");
        reveal_strlit(":80");
    }
    if has_prefix(&o, "https://") && has_suffix(&o, ":443") {
        return string_prefix(&o, n - 4);
    }
    if has_prefix(&o, "http://") && has_suffix(&o, ":80") {
        return string_prefix(&o, n - 3);
    }
    if has_prefix(&o, "wss://") && has_suffix(&o, ":443") {
        return string_prefix(&o, n - 4);
    }
    if has_prefix(&o, "ws://") && has_suffix(&o, ":80") {
        return string_prefix(&o, n - 3);
    }
    from_chars(o)
}

fn string_prefix(v: &Vec<char>, n: usize) -> (r: String)
    requires
        n <= v@.len(),
    ensures
        r@ == v@.take(n as int),
{
    let s = crate::text::string_of(v, 0, n);
    assert(v@.subrange(0, n as int) =~= v@.take(n as int));
    s
}

pub open spec fn hex_digit(d: u8) -> char {
    if d < 10 {
        ((d + 48) as u32) as char
    } else {
        ((d + 87) as u32) as char
    }
}

/// Each byte as two lower-case hex digits.
pub open spec fn hex_of(b: Seq<u8>) -> Seq<char>
    decreases b.len(),
{
    if b.len() == 0 {
        Seq::empty()
    } else {
        hex_of(b.drop_last()) + seq![hex_digit(b.last() / 16), hex_digit(b.last() % 16)]
    }
}

fn digit_char(d: u8) -> (c: char)
    requires
        d < 16,
    ensures
        c == hex_digit(d),
{
    if d < 10 {
        (d + 48) as char
    } else {
        (d + 87) as char
    }
}

/// The bytes of `s`, as lower-case hex.
pub fn hex(s: &str) -> (r: String)
    ensures
        r@ == hex_of(encode_utf8(s@)),
{
    let b = s.as_bytes();
    let mut v: Vec<char> = Vec::new();
    let mut k: usize = 0;
    while k < b.len()
        invariant
            b@ == encode_utf8(s@),
            k <= b@.len(),
            v@ == hex_of(b@.take(k as int)),
        decreases b.len() - k,
    {
        let x = b[k];
        v.push(digit_char(x / 16));
        v.push(digit_char(x % 16));
        proof {
            assert(b@.take(k + 1).drop_last() =~= b@.take(k as int));
        }
        k = k + 1;
        assert(v@ =~= hex_of(b@.take(k as int)));
    }
    assert(b@.take(k as int) =~= b@);
    from_chars(v)
}

/// Where the pin or the grant for `app_id` at `origin` is kept under
/// `root`: `root/by-origin/<hex origin>/<hex app_id>`, the origin in its
/// one spelling.
pub open spec fn store_at(root: Seq<char>, origin: Seq<char>, app_id: Seq<char>) -> Seq<char> {
    join(
        join(join(root, "by-origin"@), hex_of(encode_utf8(normal_origin(origin)))),
        hex_of(encode_utf8(app_id)),
    )
}

pub fn store_path(root: &str, origin: &str, app_id: &str) -> (r: String)
    ensures
        r@ == store_at(root@, origin@, app_id@),
{
    let a = join_path(root, "by-origin");
    let o = normal(origin);
    let ho = hex(o.as_str());
    let b = join_path(a.as_str(), ho.as_str());
    let hi = hex(app_id);
    join_path(b.as_str(), hi.as_str())
}

/// A lower-case hex digit.
pub open spec fn is_hex_char(c: char) -> bool {
    ('0' <= c <= '9') || ('a' <= c <= 'f')
}

proof fn lemma_hex_of_chars(b: Seq<u8>)
    ensures
        forall|k: int| 0 <= k < hex_of(b).len() ==> is_hex_char(#[trigger] hex_of(b)[k]),
    decreases b.len(),
{
    if b.len() > 0 {
        lemma_hex_of_chars(b.drop_last());
        let x = b.last();
        let front = hex_of(b.drop_last());
        let h = hex_of(b);
        assert(x / 16 < 16 && x % 16 < 16);
        assert(is_hex_char(hex_digit(x / 16)) && is_hex_char(hex_digit(x % 16)));
        assert forall|k: int| 0 <= k < h.len() implies is_hex_char(#[trigger] h[k]) by {
            if k < front.len() {
                assert(h[k] == front[k]);
            }
        }
    }
}

proof fn lemma_join_hex(base: Seq<char>, p: Seq<char>)
    requires
        forall|k: int| 0 <= k < p.len() ==> is_hex_char(#[trigger] p[k]),
    ensures
        join(base, p).len() >= base.len(),
        join(base, p).subrange(0, base.len() as int) == base,
        forall|k: int|
            base.len() <= k < join(base, p).len() ==> is_hex_char(#[trigger] join(base, p)[k])
                || join(base, p)[k] == '/',
{
    let j = join(base, p);
    if p.len() > 0 {
        assert(is_hex_char(p[0]));
    }
    assert(j.subrange(0, base.len() as int) =~= base);
    assert forall|k: int| base.len() <= k < j.len() implies is_hex_char(#[trigger] j[k]) || j[k] == '/' by {
        if base.len() == 0 || base.last() == '/' {
            assert(j[k] == p[k - base.len()]);
        } else if k > base.len() {
            assert(j[k] == p[k - base.len() - 1]);
        }
    }
}

/// A store path names nothing outside the store: whatever the origin and
/// the `app_id` say, the path is the store's `by-origin` directory and
/// then hex digits and separators only, so no `..` and no absolute path
/// in either can reach another file. Two spellings of one origin share it.
pub proof fn lemma_store_stays_inside(root: Seq<char>, origin: Seq<char>, other: Seq<char>, app_id: Seq<char>)
    ensures
        ({
            let base = join(root, "by-origin"@);
            let p = store_at(root, origin, app_id);
            &&& p.len() >= base.len()
            &&& p.subrange(0, base.len() as int) == base
            &&& forall|k: int| base.len() <= k < p.len() ==> is_hex_char(#[trigger] p[k]) || p[k] == '/'
        }),
        normal_origin(origin) == normal_origin(other) ==> store_at(root, origin, app_id) == store_at(
            root,
            other,
            app_id,
        ),
{
    let base = join(root, "by-origin"@);
    let h1 = hex_of(encode_utf8(normal_origin(origin)));
    let h2 = hex_of(encode_utf8(app_id));
    lemma_hex_of_chars(encode_utf8(normal_origin(origin)));
    lemma_hex_of_chars(encode_utf8(app_id));
    lemma_join_hex(base, h1);
    let mid = join(base, h1);
    lemma_join_hex(mid, h2);
    let p = join(mid, h2);
    assert(p.subrange(0, mid.len() as int) == mid);
    assert(p.subrange(0, base.len() as int) =~= mid.subrange(0, base.len() as int));
    assert forall|k: int| base.len() <= k < p.len() implies is_hex_char(#[trigger] p[k]) || p[k] == '/' by {
        if k < mid.len() {
            assert(p[k] == p.subrange(0, mid.len() as int)[k]);
            assert(p[k] == mid[k]);
        }
    }
}

proof fn lemma_hex_of_at(b: Seq<u8>)
    ensures
        hex_of(b).len() == 2 * b.len(),
        forall|i: int|
            0 <= i < b.len() ==> hex_of(b)[2 * i] == hex_digit(#[trigger] b[i] / 16) && hex_of(b)[2 * i + 1]
                == hex_digit(b[i] % 16),
    decreases b.len(),
{
    if b.len() > 0 {
        let f = b.drop_last();
        lemma_hex_of_at(f);
        assert forall|i: int| 0 <= i < b.len() implies hex_of(b)[2 * i] == hex_digit(#[trigger] b[i] / 16)
            && hex_of(b)[2 * i + 1] == hex_digit(b[i] % 16) by {
            if i < f.len() {
                assert(f[i] == b[i]);
            }
        }
    }
}

proof fn lemma_hex_digit_one(x: u8, y: u8)
    requires
        x < 16,
        y < 16,
        hex_digit(x) == hex_digit(y),
    ensures
        x == y,
{
    let cx = hex_digit(x) as u32;
    let cy = hex_digit(y) as u32;
    assert(cx == (if x < 10 { x + 48 } else { x + 87 }));
    assert(cy == (if y < 10 { y + 48 } else { y + 87 }));
}

proof fn lemma_hex_of_injective(a: Seq<u8>, b: Seq<u8>)
    requires
        hex_of(a) == hex_of(b),
    ensures
        a == b,
{
    lemma_hex_of_at(a);
    lemma_hex_of_at(b);
    assert forall|i: int| 0 <= i < a.len() implies a[i] == b[i] by {
        assert(hex_of(a)[2 * i] == hex_digit(a[i] / 16));
        assert(hex_of(b)[2 * i] == hex_digit(b[i] / 16));
        assert(hex_of(a)[2 * i + 1] == hex_digit(a[i] % 16));
        assert(hex_of(b)[2 * i + 1] == hex_digit(b[i] % 16));
        lemma_hex_digit_one(a[i] / 16, b[i] / 16);
        lemma_hex_digit_one(a[i] % 16, b[i] % 16);
    }
    assert(a =~= b);
}

proof fn lemma_hex_nonempty(s: Seq<char>)
    requires
        s.len() > 0,
    ensures
        hex_of(encode_utf8(s)).len() > 0,
        forall|k: int| 0 <= k < hex_of(encode_utf8(s)).len() ==> is_hex_char(#[trigger] hex_of(encode_utf8(s))[k]),
{
    broadcast use vstd::utf8::encode_utf8_decode_utf8;

    let e = encode_utf8(s);
    if e.len() == 0 {
        assert(e =~= Seq::<u8>::empty());
        assert(vstd::utf8::decode_utf8(e) =~= Seq::<char>::empty());
    }
    lemma_hex_of_at(e);
    lemma_hex_of_chars(e);
}

/// Where a hex part hangs under a base that ends in a name: after one `/`.
proof fn lemma_join_part(base: Seq<char>, h: Seq<char>)
    requires
        base.len() > 0,
        base.last() != '/',
        h.len() > 0,
        forall|k: int| 0 <= k < h.len() ==> is_hex_char(#[trigger] h[k]),
    ensures
        join(base, h) == base + seq!['/'] + h,
{
    assert(is_hex_char(h[0]));
}

/// No choice of origin or `app_id` can spell another's store path: two
/// different pairs of a normal origin and an `app_id`, neither part empty,
/// are kept in two different places.
pub proof fn lemma_store_paths_differ(
    root: Seq<char>,
    origin: Seq<char>,
    app_id: Seq<char>,
    other_origin: Seq<char>,
    other_app_id: Seq<char>,
)
    requires
        normal_origin(origin).len() > 0,
        normal_origin(other_origin).len() > 0,
        app_id.len() > 0,
        other_app_id.len() > 0,
        normal_origin(origin) != normal_origin(other_origin) || app_id != other_app_id,
    ensures
        store_at(root, origin, app_id) != store_at(root, other_origin, other_app_id),
{
    broadcast use vstd::utf8::encode_utf8_decode_utf8;

    reveal_strlit("by-origin");
    let base = join(root, "by-origin"@);
    assert(base.len() > 0 && base.last() == 'n');
    let n1 = normal_origin(origin);
    let n2 = normal_origin(other_origin);
    let h1 = hex_of(encode_utf8(n1));
    let g1 = hex_of(encode_utf8(app_id));
    let h2 = hex_of(encode_utf8(n2));
    let g2 = hex_of(encode_utf8(other_app_id));
    lemma_hex_nonempty(n1);
    lemma_hex_nonempty(app_id);
    lemma_hex_nonempty(n2);
    lemma_hex_nonempty(other_app_id);
    lemma_join_part(base, h1);
    lemma_join_part(base, h2);
    let m1 = join(base, h1);
    let m2 = join(base, h2);
    assert(m1.last() == h1.last());
    assert(m2.last() == h2.last());
    assert(is_hex_char(h1[h1.len() - 1]));
    assert(is_hex_char(h2[h2.len() - 1]));
    lemma_join_part(m1, g1);
    lemma_join_part(m2, g2);
    let p1 = store_at(root, origin, app_id);
    let p2 = store_at(root, other_origin, other_app_id);
    assert(p1 =~= base + seq!['/'] + (h1 + seq!['/'] + g1));
    assert(p2 =~= base + seq!['/'] + (h2 + seq!['/'] + g2));
    if p1 == p2 {
        let t1 = h1 + seq!['/'] + g1;
        let t2 = h2 + seq!['/'] + g2;
        let b: int = base.len() as int + 1;
        assert(t1 =~= p1.subrange(b, p1.len() as int));
        assert(t2 =~= p2.subrange(b, p2.len() as int));
        assert(t1 == t2);
        if h1.len() < h2.len() {
            assert(t1[h1.len() as int] == '/');
            assert(t2[h1.len() as int] == h2[h1.len() as int]);
            assert(is_hex_char(h2[h1.len() as int]));
        } else if h2.len() < h1.len() {
            assert(t2[h2.len() as int] == '/');
            assert(t1[h2.len() as int] == h1[h2.len() as int]);
            assert(is_hex_char(h1[h2.len() as int]));
        } else {
            assert(h1 =~= t1.subrange(0, h1.len() as int));
            assert(h2 =~= t2.subrange(0, h2.len() as int));
            assert(g1 =~= t1.subrange(h1.len() as int + 1, t1.len() as int));
            assert(g2 =~= t2.subrange(h2.len() as int + 1, t2.len() as int));
            lemma_hex_of_injective(encode_utf8(n1), encode_utf8(n2));
            lemma_hex_of_injective(encode_utf8(app_id), encode_utf8(other_app_id));
            assert(vstd::utf8::decode_utf8(encode_utf8(n1)) == n1);
            assert(vstd::utf8::decode_utf8(encode_utf8(app_id)) == app_id);
        }
    }
}

// ------------------------------------------------------------------ grants

/// What a grant file says, read against `all`, the capabilities this build
/// knows: its first two words as numbers, each cut to what is known, and
/// none unless every grant is one that was asked. A file that says
/// anything else is a person who has not answered.
pub open spec fn grant_read(t: Seq<char>, all: u32) -> Option<Answered> {
    let ws = words(t);
    if ws.len() < 2 {
        None
    } else {
        match (parse_u32(ws[0]), parse_u32(ws[1])) {
            (Some(a), Some(g)) => {
                let asked = a & all;
                let granted = g & all;
                if granted & !asked == 0 {
                    Some(Answered { asked, granted })
                } else {
                    None
                }
            },
            _ => None,
        }
    }
}

/// What an answer is kept as: what was asked, cut to what is known, and
/// what was granted of that.
pub open spec fn grant_body(a: Answered, all: u32) -> Seq<char> {
    dec((a.asked & all) as nat) + " "@ + dec((a.granted & (a.asked & all)) as nat) + "\n"@
}

pub fn read_grant(text: &str, all: u32) -> (r: Option<Answered>)
    ensures
        r == grant_read(text@, all),
{
    let cs = chars_of(text);
    let (a0, b0) = match next_word(&cs, 0) {
        Some(x) => x,
        None => return None,
    };
    let (a1, b1) = match next_word(&cs, b0) {
        Some(x) => x,
        None => return None,
    };
    let ghost ws = words(cs@);
    assert(ws[0] == cs@.subrange(a0 as int, b0 as int));
    assert(ws[1] == cs@.subrange(a1 as int, b1 as int));
    let asked = match parse_u32_at(&cs, a0, b0) {
        Some(v) => v,
        None => return None,
    };
    let granted = match parse_u32_at(&cs, a1, b1) {
        Some(v) => v,
        None => return None,
    };
    let asked = asked & all;
    let granted = granted & all;
    if granted & !asked == 0 {
        Some(Answered { asked, granted })
    } else {
        None
    }
}

pub fn grant_text(a: Answered, all: u32) -> (r: String)
    ensures
        r@ == grant_body(a, all),
{
    let asked = a.asked & all;
    let granted = a.granted & asked;
    let mut v: Vec<char> = Vec::new();
    push_dec(&mut v, asked as u64);
    push_str(&mut v, " ");
    push_dec(&mut v, granted as u64);
    push_str(&mut v, "\n");
    from_chars(v)
}

/// What is kept is what is read back: an answer written out reads as
/// itself, cut to what this build knows and with no grant beyond what was
/// asked.
pub proof fn lemma_grant_round_trip(a: Answered, all: u32)
    ensures
        grant_read(grant_body(a, all), all) == Some(
            Answered { asked: a.asked & all, granted: a.granted & (a.asked & all) },
        ),
{
    let x = a.asked;
    let y = a.granted;
    let asked = x & all;
    let granted = y & asked;
    lemma_dec(asked as nat);
    lemma_dec(granted as nat);
    reveal_strlit("\n");
    assert("\n"@.len() == 1 && "\n"@[0] == '\n');
    lemma_two_words(dec(asked as nat), dec(granted as nat), "\n"@);
    assert(asked & all == asked && granted & all == granted && granted & !asked == 0) by (bit_vector)
        requires
            asked == x & all,
            granted == y & asked,
    ;
}

/// The sentence for a refusal, for a client that speaks `version`.
pub open spec fn manifest_error_text(e: ManifestError, version: u32) -> Seq<char> {
    match e {
        ManifestError::Fetch(why) => "manifest: "@ + why@,
        ManifestError::Decode(why) => "manifest: not a manifest ("@ + why@ + ")"@,
        ManifestError::BadSignature => "manifest: the signature does not verify"@,
        ManifestError::KeyChanged => "manifest: the publisher key changed since it was pinned, with no rotation signed by the old key"@,
        ManifestError::Protocol { min, max } => "manifest: the server speaks EUI "@ + dec(min as nat)
            + "–"@ + dec(max as nat) + ", this client "@ + dec(version as nat),
        ManifestError::Pins(why) => "manifest: pin store: "@ + why@,
    }
}

impl ManifestError {
    /// Why the manifest was refused, as a sentence, for a client that
    /// speaks protocol `version`.
    pub fn message(&self, version: u32) -> (r: String)
        ensures
            r@ == manifest_error_text(*self, version),
    {
        let mut v: Vec<char> = Vec::new();
        match self {
            ManifestError::Fetch(why) => {
                push_str(&mut v, "manifest: ");
                push_str(&mut v, why.as_str());
            },
            ManifestError::Decode(why) => {
                push_str(&mut v, "manifest: not a manifest (");
                push_str(&mut v, why.as_str());
                push_str(&mut v, ")");
            },
            ManifestError::BadSignature => push_str(&mut v, "manifest: the signature does not verify"),
            ManifestError::KeyChanged => push_str(
                &mut v,
                "manifest: the publisher key changed since it was pinned, with no rotation signed by the old key",
            ),
            ManifestError::Protocol { min, max } => {
                push_str(&mut v, "manifest: the server speaks EUI ");
                push_dec(&mut v, *min as u64);
                push_str(&mut v, "–");
                push_dec(&mut v, *max as u64);
                push_str(&mut v, ", this client ");
                push_dec(&mut v, version as u64);
            },
            ManifestError::Pins(why) => {
                push_str(&mut v, "manifest: pin store: ");
                push_str(&mut v, why.as_str());
            },
        }
        assert(v@ =~= manifest_error_text(*self, version));
        from_chars(v)
    }
}


/// A manifest whose signature holds is refused for its protocol exactly
/// when the server's lowest version is above the client's, or its highest
/// is below the oldest the client still speaks; the refusal names the
/// server's range. A server whose lowest version is the client's own is
/// one it speaks. With a pin there to keep or to write, a manifest that
/// passes is accepted.
pub proof fn lemma_protocol_refused_exactly(
    r: Result<PinStep, ManifestError>,
    key: Seq<u8>,
    signed: Seq<u8>,
    sig: Seq<u8>,
    min: u32,
    max: u32,
    version: u32,
    rotation: Option<(Seq<u8>, Seq<u8>)>,
    pinned: Option<Option<Seq<u8>>>,
    why: Seq<char>,
)
    requires
        says(r, verdict(key, signed, sig, min, max, version, rotation, pinned), why),
        ed25519_accepts(key, signed, sig),
    ensures
        (r matches Err(ManifestError::Protocol { .. })) <==> (min > version || max < SPEAKS_FROM),
        r matches Err(ManifestError::Protocol { min: a, max: b }) ==> a == min && b == max,
        !(min > version || max < SPEAKS_FROM) && pinned == Some(None::<Seq<u8>>) ==> r
            == Ok::<PinStep, ManifestError>(PinStep::Write),
        !(min > version || max < SPEAKS_FROM) && pinned == Some(Some(key)) ==> r == Ok::<
            PinStep,
            ManifestError,
        >(PinStep::Keep),
{
}

} // verus!
