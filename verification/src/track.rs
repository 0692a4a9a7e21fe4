//! A track: a slider with one or two handles over whole numbers from `min`
//! to `max` in `step`s. Where a key moves a handle, the one place a value is
//! put on the track's steps, and the rule that keeps two handles in order.

use vstd::prelude::*;

use crate::text::same_str;

verus! {

broadcast use vstd::string::group_string_axioms;

/// A track's range and step.
#[derive(Debug, Clone, Copy, PartialEq, Eq, Structural)]
pub struct Track {
    pub min: i64,
    pub max: i64,
    pub step: i64,
}

/// Where the handles are; `hi` is none on a one-handle track.
#[derive(Debug, Clone, Copy, PartialEq, Eq, Structural)]
pub struct TrackValue {
    pub lo: i64,
    pub hi: Option<i64>,
}

/// Which handle a gesture took.
#[derive(Debug, Clone, Copy, PartialEq, Eq, Structural)]
pub enum Handle {
    Lo,
    Hi,
}

pub open spec fn low_end(t: Track) -> int {
    if t.min <= t.max {
        t.min as int
    } else {
        t.max as int
    }
}

pub open spec fn high_end(t: Track) -> int {
    if t.min <= t.max {
        t.max as int
    } else {
        t.min as int
    }
}

/// `v` held to `[lo, hi]`.
pub open spec fn clamped(v: int, lo: int, hi: int) -> int {
    if v < lo {
        lo
    } else if v > hi {
        hi
    } else {
        v
    }
}

/// `x`, held to what an `i64` holds.
pub open spec fn sat(x: int) -> int {
    clamped(x, i64::MIN as int, i64::MAX as int)
}

/// The step, at least one.
pub open spec fn stride(t: Track) -> int {
    if t.step < 1 {
        1
    } else {
        t.step as int
    }
}

/// How many steps from `min` the nearest step to `v` is, with the sums an
/// `i64` cannot hold held to its ends.
pub open spec fn steps_to(t: Track, v: int) -> int {
    let s = stride(t);
    sat(clamped(v, low_end(t), high_end(t)) - t.min + s / 2) / s
}

/// The nearest whole step from `min` to `v`, inside the ends.
pub open spec fn snapped(t: Track, v: int) -> int {
    clamped(t.min + sat(steps_to(t, v) * stride(t)), low_end(t), high_end(t))
}

/// Whether snapping `v` stays inside what an `i64` holds on the way: the
/// distance from `min`, and `min` plus the whole steps.
pub open spec fn snaps(t: Track, v: int) -> bool {
    let d = clamped(v, low_end(t), high_end(t)) - t.min;
    &&& i64::MIN <= d <= i64::MAX
    &&& i64::MIN <= t.min + sat(steps_to(t, v) * stride(t)) <= i64::MAX
}

fn sat_add(a: i64, b: i64) -> (r: i64)
    ensures
        r == sat(a + b),
{
    let x = a as i128 + b as i128;
    if x > 9223372036854775807i128 {
        9223372036854775807i64
    } else if x < -9223372036854775808i128 {
        -9223372036854775808i64
    } else {
        x as i64
    }
}

fn sat_mul(a: i64, b: i64) -> (r: i64)
    ensures
        r == sat(a * b),
{
    let ai = a as i128;
    let bi = b as i128;
    assert(-0x8000_0000_0000_0000 * 0x8000_0000_0000_0000 <= ai * bi <= 0x8000_0000_0000_0000
        * 0x8000_0000_0000_0000) by (nonlinear_arith)
        requires
            -0x8000_0000_0000_0000 <= ai <= 0x7fff_ffff_ffff_ffff,
            -0x8000_0000_0000_0000 <= bi <= 0x7fff_ffff_ffff_ffff,
    ;
    let x = ai * bi;
    if x > 9223372036854775807i128 {
        9223372036854775807i64
    } else if x < -9223372036854775808i128 {
        -9223372036854775808i64
    } else {
        x as i64
    }
}

/// `a` divided by `s`, rounded down.
fn floor_div(a: i64, s: i64) -> (q: i64)
    requires
        s >= 1,
    ensures
        q == a as int / s as int,
{
    if a >= 0 {
        let q = (a as u64) / (s as u64);
        q as i64
    } else {
        let n: u128 = (0i128 - a as i128) as u128;
        let su = s as u128;
        let t = n + su - 1;
        let q = t / su;
        proof {
            vstd::arithmetic::div_mod::lemma_fundamental_div_mod(t as int, su as int);
            let r = a + q * s;
            assert(0 <= r < s) by (nonlinear_arith)
                requires
                    t == n + su - 1,
                    t == su * q + t % su,
                    0 <= t % su < su,
                    su == s,
                    n == -a,
                    r == a + q * s,
            ;
            assert(a == (-q) * s + r) by (nonlinear_arith)
                requires
                    r == a + q * s,
            ;
            vstd::arithmetic::div_mod::lemma_fundamental_div_mod_converse_div(a as int, s as int, -q, r);
            assert(q <= n) by (nonlinear_arith)
                requires
                    su >= 1,
                    t == su * q + t % su,
                    0 <= t % su,
                    t == n + su - 1,
            ;
        }
        (0i128 - q as i128) as i64
    }
}

impl Track {
    /// The nearest whole `step` from `min`, inside the ends: the one place a
    /// value is put on the track's steps, so the pointer, the keyboard and
    /// the server's own number all land on the same set.
    pub fn snap(&self, v: i64) -> (r: i64)
        requires
            snaps(*self, v as int),
        ensures
            r == snapped(*self, v as int),
            low_end(*self) <= r <= high_end(*self),
    {
        let lo = if self.min <= self.max { self.min } else { self.max };
        let hi = if self.min <= self.max { self.max } else { self.min };
        let v = if v < lo { lo } else if v > hi { hi } else { v };
        let step = if self.step < 1 { 1 } else { self.step };
        let d = v - self.min;
        let half = step / 2;
        let up = sat_add(d, half);
        let k = floor_div(up, step);
        let far = sat_mul(k, step);
        let at = self.min + far;
        if at < lo {
            lo
        } else if at > hi {
            hi
        } else {
            at
        }
    }
}

/// Where a key sends a handle at `now`, before it is put on a step: one
/// step either way on the arrows, ten on the page keys, the ends on Home
/// and End; none for a key the track does not answer.
pub open spec fn key_target(t: Track, now: i64, key: Seq<char>) -> Option<int> {
    let s = stride(t);
    if key == "ArrowRight"@ || key == "ArrowUp"@ {
        Some(sat(now + s))
    } else if key == "ArrowLeft"@ || key == "ArrowDown"@ {
        Some(sat(now - s))
    } else if key == "PageUp"@ {
        Some(sat(now + sat(s * 10)))
    } else if key == "PageDown"@ {
        Some(sat(now - sat(s * 10)))
    } else if key == "Home"@ {
        Some(t.min as int)
    } else if key == "End"@ {
        Some(t.max as int)
    } else {
        None
    }
}

/// [`key_target`].
pub fn target(t: &Track, now: i64, key: &str) -> (r: Option<i64>)
    ensures
        match key_target(*t, now, key@) {
            Some(x) => r == Some(x as i64),
            None => r is None,
        },
{
    let step = if t.step < 1 { 1 } else { t.step };
    if same_str(key, "ArrowRight") || same_str(key, "ArrowUp") {
        Some(sat_add(now, step))
    } else if same_str(key, "ArrowLeft") || same_str(key, "ArrowDown") {
        Some(sat_add(now, 0 - step))
    } else if same_str(key, "PageUp") {
        Some(sat_add(now, sat_mul(step, 10)))
    } else if same_str(key, "PageDown") {
        Some(sat_add(now, 0 - sat_mul(step, 10)))
    } else if same_str(key, "Home") {
        Some(t.min)
    } else if same_str(key, "End") {
        Some(t.max)
    } else {
        None
    }
}

/// The value once `handle` is put at `at`: on a two-handle track neither
/// handle passes the other.
pub open spec fn put_at(v: TrackValue, handle: Handle, at: i64) -> TrackValue {
    match (handle, v.hi) {
        (Handle::Lo, Some(hi)) => TrackValue { lo: if at < hi { at } else { hi }, hi: Some(hi) },
        (Handle::Hi, Some(_)) => TrackValue { lo: v.lo, hi: Some(if at > v.lo { at } else { v.lo }) },
        (_, None) => TrackValue { lo: at, hi: None },
    }
}

/// [`put_at`].
pub fn put(v: TrackValue, handle: Handle, at: i64) -> (r: TrackValue)
    ensures
        r == put_at(v, handle, at),
{
    match (handle, v.hi) {
        (Handle::Lo, Some(hi)) => TrackValue { lo: if at < hi { at } else { hi }, hi: Some(hi) },
        (Handle::Hi, Some(_)) => TrackValue { lo: v.lo, hi: Some(if at > v.lo { at } else { v.lo }) },
        (_, None) => TrackValue { lo: at, hi: None },
    }
}

/// The handle a key moves: the high one where there is one and the key
/// was on it, else the low one.
pub open spec fn handle_at(v: TrackValue, handle: Handle) -> i64 {
    match (handle, v.hi) {
        (Handle::Hi, Some(hi)) => hi,
        _ => v.lo,
    }
}

/// What a key does to a track's value, when it is a key the track
/// answers: the handle moved by [`key_target`], put on a step, and kept
/// from passing the other.
pub fn moved(t: &Track, v: TrackValue, handle: Handle, key: &str) -> (r: Option<TrackValue>)
    requires
        key_target(*t, handle_at(v, handle), key@) matches Some(x) ==> snaps(*t, x),
    ensures
        match key_target(*t, handle_at(v, handle), key@) {
            Some(x) => r == Some(put_at(v, handle, snapped(*t, x) as i64)),
            None => r is None,
        },
{
    let now = match (handle, v.hi) {
        (Handle::Hi, Some(hi)) => hi,
        _ => v.lo,
    };
    match target(t, now, key) {
        Some(at) => Some(put(v, handle, t.snap(at))),
        None => None,
    }
}

/// Two handles stay in order: whatever a handle is put at, the low one is
/// not above the high one after, if it was not before.
pub proof fn lemma_handles_keep_order(v: TrackValue, handle: Handle, at: i64)
    requires
        v.hi matches Some(hi) ==> v.lo <= hi,
    ensures
        put_at(v, handle, at).hi matches Some(hi) ==> put_at(v, handle, at).lo <= hi,
{
}

/// A snapped value lands on a step from `min` or on an end of the track;
/// the one way off the steps is a count of them from `min` too large for
/// an `i64` to hold.
pub proof fn lemma_snap_lands_on_a_step(t: Track, v: int)
    requires
        snaps(t, v),
    ensures
        ({
            let r = snapped(t, v);
            let far = steps_to(t, v) * stride(t);
            ||| r == low_end(t)
            ||| r == high_end(t)
            ||| (r - t.min) % stride(t) == 0
            ||| far != sat(far)
        }),
{
    let k = steps_to(t, v);
    let s = stride(t);
    vstd::arithmetic::div_mod::lemma_mod_multiples_basic(k, s);
}

} // verus!
