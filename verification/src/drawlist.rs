//! A draw list on the pipe: the quads a paint produced, the runs and
//! clips that group them, the scrollers the vertex stage moves, and the
//! backdrop a blur reads.

use vstd::prelude::*;

use crate::quad::{enc_quad, get_quad, lemma_read_quad, p_quad, put_quad, wf_quad, Quad, QuadModel};
use crate::wire::{
    at, enc_bool, enc_counted, enc_f4, enc_list, enc_u32, enc_u32_fn, enc_u64, lemma_at_split,
    lemma_enc_list_push, lemma_read_bool, lemma_read_counted, lemma_read_f4, lemma_read_list,
    lemma_read_u32, lemma_read_u64, p_bool, p_counted, p_f4, p_list, p_list_from, p_u32, p_u32_fn,
    p_u64, wire_count, wire_len, arr4, WireError, R, W,
};

verus! {

// ------------------------------------------------------------------ lists

/// A run of quads drawn under one clip, in one chain of effects.
#[derive(Debug, Clone, Copy, PartialEq, Eq)]
pub struct Run {
    pub clip: u32,
    pub chain: u32,
    pub first: u32,
    pub count: u32,
}

/// A scroller the vertex stage moves: from, to, start, duration and
/// curve, the times and offsets as `f32` bits. `pad` is not on the wire.
#[derive(Debug, Clone, Copy, PartialEq, Eq)]
pub struct Scroller {
    pub from: [u32; 2],
    pub to: [u32; 2],
    pub t0: u32,
    pub dur: u32,
    pub curve: u32,
    pub pad: u32,
}

pub struct ScrollerModel {
    pub from: Seq<u32>,
    pub to: Seq<u32>,
    pub t0: u32,
    pub dur: u32,
    pub curve: u32,
    pub pad: u32,
}

impl View for Scroller {
    type V = ScrollerModel;

    open spec fn view(&self) -> ScrollerModel {
        ScrollerModel {
            from: self.from@,
            to: self.to@,
            t0: self.t0,
            dur: self.dur,
            curve: self.curve,
            pad: self.pad,
        }
    }
}

/// What a blur reads: the rectangle, the first quad drawn over it, and a
/// standard deviation per pass as `f32` bits.
#[derive(Debug, PartialEq, Eq)]
pub struct Backdrop {
    pub rect: [u32; 4],
    pub first: u32,
    pub sigmas: Vec<u32>,
}

pub struct BackdropModel {
    pub rect: Seq<u32>,
    pub first: u32,
    pub sigmas: Seq<u32>,
}

impl View for Backdrop {
    type V = BackdropModel;

    open spec fn view(&self) -> BackdropModel {
        BackdropModel { rect: self.rect@, first: self.first, sigmas: self.sigmas@ }
    }
}

/// A frame: the quads, the runs and clips that group them, the clear
/// colour, the scrollers, and what the window may do with it.
#[derive(Debug, PartialEq, Eq)]
pub struct DrawList {
    pub quads: Vec<Quad>,
    pub runs: Vec<Run>,
    pub clips: Vec<[u32; 4]>,
    pub clear: [u32; 4],
    pub wants_frame: bool,
    pub gpu_only: bool,
    pub repeat_until_ms: u32,
    pub serial: u64,
    pub cpu_bound: bool,
    pub scrollers: Vec<Scroller>,
    pub backdrop: Option<Backdrop>,
}

pub struct DrawListModel {
    pub quads: Seq<QuadModel>,
    pub runs: Seq<Run>,
    pub clips: Seq<Seq<u32>>,
    pub clear: Seq<u32>,
    pub wants_frame: bool,
    pub gpu_only: bool,
    pub repeat_until_ms: u32,
    pub serial: u64,
    pub cpu_bound: bool,
    pub scrollers: Seq<ScrollerModel>,
    pub backdrop: Option<BackdropModel>,
}

pub open spec fn backdrop_view(b: Option<Backdrop>) -> Option<BackdropModel> {
    match b {
        Some(x) => Some(x@),
        None => None,
    }
}

impl View for DrawList {
    type V = DrawListModel;

    open spec fn view(&self) -> DrawListModel {
        DrawListModel {
            quads: self.quads@.map_values(|q: Quad| q@),
            runs: self.runs@,
            clips: self.clips@.map_values(|c: [u32; 4]| c@),
            clear: self.clear@,
            wants_frame: self.wants_frame,
            gpu_only: self.gpu_only,
            repeat_until_ms: self.repeat_until_ms,
            serial: self.serial,
            cpu_bound: self.cpu_bound,
            scrollers: self.scrollers@.map_values(|x: Scroller| x@),
            backdrop: backdrop_view(self.backdrop),
        }
    }
}

pub open spec fn enc_quad_fn() -> spec_fn(QuadModel) -> Seq<u8> {
    |q: QuadModel| enc_quad(q)
}

pub open spec fn p_quad_fn() -> spec_fn(Seq<u8>, int) -> Result<(QuadModel, int), WireError> {
    |s: Seq<u8>, i: int| p_quad(s, i)
}

pub open spec fn enc_run(r: Run) -> Seq<u8> {
    enc_f4(seq![r.clip, r.chain, r.first, r.count])
}

pub open spec fn enc_run_fn() -> spec_fn(Run) -> Seq<u8> {
    |r: Run| enc_run(r)
}

pub open spec fn p_run(s: Seq<u8>, i: int) -> Result<(Run, int), WireError> {
    match p_f4(s, i) {
        Ok((v, j)) => Ok((Run { clip: v[0], chain: v[1], first: v[2], count: v[3] }, j)),
        Err(e) => Err(e),
    }
}

pub open spec fn p_run_fn() -> spec_fn(Seq<u8>, int) -> Result<(Run, int), WireError> {
    |s: Seq<u8>, i: int| p_run(s, i)
}

pub open spec fn enc_f4_fn() -> spec_fn(Seq<u32>) -> Seq<u8> {
    |v: Seq<u32>| enc_f4(v)
}

pub open spec fn p_f4_fn() -> spec_fn(Seq<u8>, int) -> Result<(Seq<u32>, int), WireError> {
    |s: Seq<u8>, i: int| p_f4(s, i)
}

pub open spec fn enc_scroller(x: ScrollerModel) -> Seq<u8> {
    enc_f4(seq![x.from[0], x.from[1], x.to[0], x.to[1]]) + enc_u32(x.t0) + enc_u32(x.dur) + enc_u32(
        x.curve,
    )
}

pub open spec fn enc_scroller_fn() -> spec_fn(ScrollerModel) -> Seq<u8> {
    |x: ScrollerModel| enc_scroller(x)
}

pub open spec fn p_scroller(s: Seq<u8>, i: int) -> Result<(ScrollerModel, int), WireError> {
    match p_f4(s, i) {
        Ok((v, j)) => match p_u32(s, j) {
            Ok((t0, k)) => match p_u32(s, k) {
                Ok((dur, l)) => match p_u32(s, l) {
                    Ok((curve, m)) => Ok(
                        (
                            ScrollerModel {
                                from: seq![v[0], v[1]],
                                to: seq![v[2], v[3]],
                                t0,
                                dur,
                                curve,
                                pad: 0,
                            },
                            m,
                        ),
                    ),
                    Err(e) => Err(e),
                },
                Err(e) => Err(e),
            },
            Err(e) => Err(e),
        },
        Err(e) => Err(e),
    }
}

pub open spec fn p_scroller_fn() -> spec_fn(Seq<u8>, int) -> Result<(ScrollerModel, int), WireError> {
    |s: Seq<u8>, i: int| p_scroller(s, i)
}

/// The count of standard deviations doubles as the tag: none is no
/// backdrop.
pub open spec fn enc_backdrop(b: Option<BackdropModel>) -> Seq<u8> {
    match b {
        None => enc_u32(0),
        Some(x) => enc_u32(wire_len(x.sigmas.len())) + enc_f4(x.rect) + enc_u32(x.first)
            + enc_list(x.sigmas, enc_u32_fn()),
    }
}

pub open spec fn p_backdrop(s: Seq<u8>, i: int) -> Result<(Option<BackdropModel>, int), WireError> {
    match p_u32(s, i) {
        Ok((n, j)) => if n == 0 {
            Ok((None, j))
        } else {
            match p_f4(s, j) {
                Ok((rect, k)) => match p_u32(s, k) {
                    Ok((first, l)) => match p_list(s, l, n as nat, p_u32_fn()) {
                        Ok((sigmas, m)) => Ok((Some(BackdropModel { rect, first, sigmas }), m)),
                        Err(e) => Err(e),
                    },
                    Err(e) => Err(e),
                },
                Err(e) => Err(e),
            }
        },
        Err(e) => Err(e),
    }
}

/// The geometry half of a list.
pub open spec fn enc_dl_a(d: DrawListModel) -> Seq<u8> {
    enc_counted(d.quads, enc_quad_fn()) + enc_counted(d.runs, enc_run_fn()) + enc_counted(
        d.clips,
        enc_f4_fn(),
    ) + enc_f4(d.clear)
}

/// The rest: scrollers, flags, the timer, the serial and the backdrop.
pub open spec fn enc_dl_b(d: DrawListModel) -> Seq<u8> {
    enc_counted(d.scrollers, enc_scroller_fn()) + enc_bool(d.wants_frame) + enc_bool(d.gpu_only)
        + enc_u32(d.repeat_until_ms) + enc_u64(d.serial) + enc_backdrop(d.backdrop)
}

pub open spec fn enc_drawlist(d: DrawListModel) -> Seq<u8> {
    enc_dl_a(d) + enc_dl_b(d)
}

pub open spec fn p_dl_a(s: Seq<u8>, i: int) -> Result<
    ((Seq<QuadModel>, Seq<Run>, Seq<Seq<u32>>, Seq<u32>), int),
    WireError,
> {
    match p_counted(s, i, p_quad_fn()) {
        Ok((quads, j)) => match p_counted(s, j, p_run_fn()) {
            Ok((runs, k)) => match p_counted(s, k, p_f4_fn()) {
                Ok((clips, l)) => match p_f4(s, l) {
                    Ok((clear, m)) => Ok(((quads, runs, clips, clear), m)),
                    Err(e) => Err(e),
                },
                Err(e) => Err(e),
            },
            Err(e) => Err(e),
        },
        Err(e) => Err(e),
    }
}

pub open spec fn p_dl_b(s: Seq<u8>, i: int) -> Result<
    ((Seq<ScrollerModel>, bool, bool, u32, u64, Option<BackdropModel>), int),
    WireError,
> {
    match p_counted(s, i, p_scroller_fn()) {
        Ok((scrollers, j)) => match p_bool(s, j) {
            Ok((wants_frame, k)) => match p_bool(s, k) {
                Ok((gpu_only, l)) => match p_u32(s, l) {
                    Ok((repeat, m)) => match p_u64(s, m) {
                        Ok((serial, n)) => match p_backdrop(s, n) {
                            Ok((backdrop, o)) => Ok(
                                ((scrollers, wants_frame, gpu_only, repeat, serial, backdrop), o),
                            ),
                            Err(e) => Err(e),
                        },
                        Err(e) => Err(e),
                    },
                    Err(e) => Err(e),
                },
                Err(e) => Err(e),
            },
            Err(e) => Err(e),
        },
        Err(e) => Err(e),
    }
}

pub open spec fn p_drawlist(s: Seq<u8>, i: int) -> Result<(DrawListModel, int), WireError> {
    match p_dl_a(s, i) {
        Ok(((quads, runs, clips, clear), j)) => match p_dl_b(s, j) {
            Ok(((scrollers, wants_frame, gpu_only, repeat_until_ms, serial, backdrop), k)) => Ok(
                (
                    DrawListModel {
                        quads,
                        runs,
                        clips,
                        clear,
                        wants_frame,
                        gpu_only,
                        repeat_until_ms,
                        serial,
                        cpu_bound: false,
                        scrollers,
                        backdrop,
                    },
                    k,
                ),
            ),
            Err(e) => Err(e),
        },
        Err(e) => Err(e),
    }
}


pub open spec fn quad_views(v: Seq<Quad>) -> Seq<QuadModel> {
    v.map_values(|q: Quad| q@)
}

pub open spec fn clip_views(v: Seq<[u32; 4]>) -> Seq<Seq<u32>> {
    v.map_values(|c: [u32; 4]| c@)
}

pub open spec fn scroller_views(v: Seq<Scroller>) -> Seq<ScrollerModel> {
    v.map_values(|x: Scroller| x@)
}

fn put_quads(w: &mut W, qs: &Vec<Quad>)
    ensures
        final(w).buf@ == old(w).buf@ + enc_counted(quad_views(qs@), enc_quad_fn()),
{
    let ghost m = quad_views(qs@);
    w.u32(wire_count(qs.len()));
    let ghost s0 = w.buf@;
    let mut k: usize = 0;
    while k < qs.len()
        invariant
            m == quad_views(qs@),
            k <= qs@.len(),
            w.buf@ == s0 + enc_list(m.take(k as int), enc_quad_fn()),
        decreases qs.len() - k,
    {
        put_quad(w, &qs[k]);
        proof {
            lemma_enc_list_push(m, k as int, enc_quad_fn());
        }
        k = k + 1;
        assert(w.buf@ =~= s0 + enc_list(m.take(k as int), enc_quad_fn()));
    }
    assert(m.take(k as int) =~= m);
}

fn put_dl_a(w: &mut W, d: &DrawList)
    ensures
        final(w).buf@ == old(w).buf@ + enc_dl_a(d@),
{
    let ghost m = d@;
    put_quads(w, &d.quads);
    w.u32(wire_count(d.runs.len()));
    let ghost s1 = w.buf@;
    let mut k: usize = 0;
    while k < d.runs.len()
        invariant
            m == d@,
            k <= d.runs@.len(),
            w.buf@ == s1 + enc_list(m.runs.take(k as int), enc_run_fn()),
        decreases d.runs.len() - k,
    {
        let r = d.runs[k];
        w.f4(&arr4(r.clip, r.chain, r.first, r.count));
        proof {
            lemma_enc_list_push(m.runs, k as int, enc_run_fn());
        }
        k = k + 1;
        assert(w.buf@ =~= s1 + enc_list(m.runs.take(k as int), enc_run_fn()));
    }
    assert(m.runs.take(k as int) =~= m.runs);
    w.u32(wire_count(d.clips.len()));
    let ghost s2 = w.buf@;
    let mut k: usize = 0;
    while k < d.clips.len()
        invariant
            m == d@,
            k <= d.clips@.len(),
            w.buf@ == s2 + enc_list(m.clips.take(k as int), enc_f4_fn()),
        decreases d.clips.len() - k,
    {
        w.f4(&d.clips[k]);
        proof {
            lemma_enc_list_push(m.clips, k as int, enc_f4_fn());
        }
        k = k + 1;
        assert(w.buf@ =~= s2 + enc_list(m.clips.take(k as int), enc_f4_fn()));
    }
    assert(m.clips.take(k as int) =~= m.clips);
    w.f4(&d.clear);
    assert(m.quads == quad_views(d.quads@));
    assert(w.buf@ =~= old(w).buf@ + enc_dl_a(m));
}

fn put_backdrop(w: &mut W, b: &Option<Backdrop>)
    ensures
        final(w).buf@ == old(w).buf@ + enc_backdrop(backdrop_view(*b)),
{
    match b {
        None => w.u32(0),
        Some(x) => {
            w.u32(wire_count(x.sigmas.len()));
            w.f4(&x.rect);
            w.u32(x.first);
            let ghost s0 = w.buf@;
            let mut k: usize = 0;
            while k < x.sigmas.len()
                invariant
                    k <= x.sigmas@.len(),
                    w.buf@ == s0 + enc_list(x.sigmas@.take(k as int), enc_u32_fn()),
                decreases x.sigmas.len() - k,
            {
                w.u32(x.sigmas[k]);
                proof {
                    lemma_enc_list_push(x.sigmas@, k as int, enc_u32_fn());
                }
                k = k + 1;
                assert(w.buf@ =~= s0 + enc_list(x.sigmas@.take(k as int), enc_u32_fn()));
            }
            assert(x.sigmas@.take(k as int) =~= x.sigmas@);
            assert(w.buf@ =~= old(w).buf@ + enc_backdrop(backdrop_view(*b)));
        },
    }
}

fn put_dl_b(w: &mut W, d: &DrawList)
    ensures
        final(w).buf@ == old(w).buf@ + enc_dl_b(d@),
{
    let ghost m = d@;
    w.u32(wire_count(d.scrollers.len()));
    let ghost s0 = w.buf@;
    let mut k: usize = 0;
    while k < d.scrollers.len()
        invariant
            m == d@,
            k <= d.scrollers@.len(),
            w.buf@ == s0 + enc_list(m.scrollers.take(k as int), enc_scroller_fn()),
        decreases d.scrollers.len() - k,
    {
        let x = d.scrollers[k];
        w.f4(&arr4(x.from[0], x.from[1], x.to[0], x.to[1]));
        w.u32(x.t0);
        w.u32(x.dur);
        w.u32(x.curve);
        proof {
            lemma_enc_list_push(m.scrollers, k as int, enc_scroller_fn());
        }
        k = k + 1;
        assert(w.buf@ =~= s0 + enc_list(m.scrollers.take(k as int), enc_scroller_fn()));
    }
    assert(m.scrollers.take(k as int) =~= m.scrollers);
    w.bool(d.wants_frame);
    w.bool(d.gpu_only);
    w.u32(d.repeat_until_ms);
    w.u64(d.serial);
    put_backdrop(w, &d.backdrop);
    assert(w.buf@ =~= old(w).buf@ + enc_dl_b(m));
}

/// Write `d` after what `w` holds.
pub fn put_list(w: &mut W, d: &DrawList)
    ensures
        final(w).buf@ == old(w).buf@ + enc_drawlist(d@),
{
    put_dl_a(w, d);
    put_dl_b(w, d);
    assert(w.buf@ =~= old(w).buf@ + enc_drawlist(d@));
}

#[verifier::loop_isolation(false)]
fn get_quads(r: &mut R) -> (res: Result<Vec<Quad>, WireError>)
    requires
        old(r).ok(),
    ensures
        final(r).ok(),
        final(r).b == old(r).b,
        match p_counted(old(r).s(), old(r).i as int, p_quad_fn()) {
            Ok((v, j)) => res matches Ok(x) && quad_views(x@) == v && final(r).i == j,
            Err(e) => res matches Err(x) && x == e,
        },
{
    proof {
        reveal(p_counted);
    }
    let ghost s = r.s();
    let ghost b0 = r.b;
    let n = r.u32()?;
    let ghost j0 = r.i as int;
    let mut out: Vec<Quad> = Vec::new();
    let mut k: u32 = 0;
    while k < n
        invariant
            r.ok(),
            r.s() == s,
            r.b == b0,
            k <= n,
            p_list(s, j0, n as nat, p_quad_fn()) == p_list_from(
                quad_views(out@),
                s,
                r.i as int,
                (n - k) as nat,
                p_quad_fn(),
            ),
        decreases n - k,
    {
        let q = get_quad(r)?;
        let ghost before = quad_views(out@);
        out.push(q);
        assert(quad_views(out@) =~= before + seq![q@]);
        k = k + 1;
        proof {
            let rest = p_list(s, r.i as int, (n - k) as nat, p_quad_fn());
            if rest is Ok {
                let (xs, e) = rest->Ok_0;
                assert(before + (seq![q@] + xs) =~= quad_views(out@) + xs);
            }
        }
    }
    assert(quad_views(out@) + Seq::<QuadModel>::empty() =~= quad_views(out@));
    Ok(out)
}

#[verifier::loop_isolation(false)]
fn get_runs(r: &mut R) -> (res: Result<Vec<Run>, WireError>)
    requires
        old(r).ok(),
    ensures
        final(r).ok(),
        final(r).b == old(r).b,
        match p_counted(old(r).s(), old(r).i as int, p_run_fn()) {
            Ok((v, j)) => res matches Ok(x) && x@ == v && final(r).i == j,
            Err(e) => res matches Err(x) && x == e,
        },
{
    proof {
        reveal(p_counted);
    }
    let ghost s = r.s();
    let ghost b0 = r.b;
    let n = r.u32()?;
    let ghost j0 = r.i as int;
    let mut out: Vec<Run> = Vec::new();
    let mut k: u32 = 0;
    while k < n
        invariant
            r.ok(),
            r.s() == s,
            r.b == b0,
            k <= n,
            p_list(s, j0, n as nat, p_run_fn()) == p_list_from(
                out@,
                s,
                r.i as int,
                (n - k) as nat,
                p_run_fn(),
            ),
        decreases n - k,
    {
        let v = r.f4()?;
        let x = Run { clip: v[0], chain: v[1], first: v[2], count: v[3] };
        let ghost before = out@;
        out.push(x);
        k = k + 1;
        proof {
            let rest = p_list(s, r.i as int, (n - k) as nat, p_run_fn());
            if rest is Ok {
                let (xs, e) = rest->Ok_0;
                assert(before + (seq![x] + xs) =~= out@ + xs);
            }
        }
    }
    assert(out@ + Seq::<Run>::empty() =~= out@);
    Ok(out)
}

#[verifier::loop_isolation(false)]
fn get_clips(r: &mut R) -> (res: Result<Vec<[u32; 4]>, WireError>)
    requires
        old(r).ok(),
    ensures
        final(r).ok(),
        final(r).b == old(r).b,
        match p_counted(old(r).s(), old(r).i as int, p_f4_fn()) {
            Ok((v, j)) => res matches Ok(x) && clip_views(x@) == v && final(r).i == j,
            Err(e) => res matches Err(x) && x == e,
        },
{
    proof {
        reveal(p_counted);
    }
    let ghost s = r.s();
    let ghost b0 = r.b;
    let n = r.u32()?;
    let ghost j0 = r.i as int;
    let mut out: Vec<[u32; 4]> = Vec::new();
    let mut k: u32 = 0;
    while k < n
        invariant
            r.ok(),
            r.s() == s,
            r.b == b0,
            k <= n,
            p_list(s, j0, n as nat, p_f4_fn()) == p_list_from(
                clip_views(out@),
                s,
                r.i as int,
                (n - k) as nat,
                p_f4_fn(),
            ),
        decreases n - k,
    {
        let v = r.f4()?;
        let ghost before = clip_views(out@);
        out.push(v);
        assert(clip_views(out@) =~= before + seq![v@]);
        k = k + 1;
        proof {
            let rest = p_list(s, r.i as int, (n - k) as nat, p_f4_fn());
            if rest is Ok {
                let (xs, e) = rest->Ok_0;
                assert(before + (seq![v@] + xs) =~= clip_views(out@) + xs);
            }
        }
    }
    assert(clip_views(out@) + Seq::<Seq<u32>>::empty() =~= clip_views(out@));
    Ok(out)
}

#[verifier::loop_isolation(false)]
fn get_scrollers(r: &mut R) -> (res: Result<Vec<Scroller>, WireError>)
    requires
        old(r).ok(),
    ensures
        final(r).ok(),
        final(r).b == old(r).b,
        match p_counted(old(r).s(), old(r).i as int, p_scroller_fn()) {
            Ok((v, j)) => res matches Ok(x) && scroller_views(x@) == v && final(r).i == j,
            Err(e) => res matches Err(x) && x == e,
        },
{
    proof {
        reveal(p_counted);
    }
    let ghost s = r.s();
    let ghost b0 = r.b;
    let n = r.u32()?;
    let ghost j0 = r.i as int;
    let mut out: Vec<Scroller> = Vec::new();
    let mut k: u32 = 0;
    while k < n
        invariant
            r.ok(),
            r.s() == s,
            r.b == b0,
            k <= n,
            p_list(s, j0, n as nat, p_scroller_fn()) == p_list_from(
                scroller_views(out@),
                s,
                r.i as int,
                (n - k) as nat,
                p_scroller_fn(),
            ),
        decreases n - k,
    {
        let v = r.f4()?;
        let t0 = r.u32()?;
        let dur = r.u32()?;
        let curve = r.u32()?;
        let x = Scroller { from: [v[0], v[1]], to: [v[2], v[3]], t0, dur, curve, pad: 0 };
        assert(x@.from =~= seq![v@[0], v@[1]]);
        assert(x@.to =~= seq![v@[2], v@[3]]);
        let ghost before = scroller_views(out@);
        out.push(x);
        assert(scroller_views(out@) =~= before + seq![x@]);
        k = k + 1;
        proof {
            let rest = p_list(s, r.i as int, (n - k) as nat, p_scroller_fn());
            if rest is Ok {
                let (xs, e) = rest->Ok_0;
                assert(before + (seq![x@] + xs) =~= scroller_views(out@) + xs);
            }
        }
    }
    assert(scroller_views(out@) + Seq::<ScrollerModel>::empty() =~= scroller_views(out@));
    Ok(out)
}

#[verifier::loop_isolation(false)]
fn get_u32s(r: &mut R, n: u32) -> (res: Result<Vec<u32>, WireError>)
    requires
        old(r).ok(),
    ensures
        final(r).ok(),
        final(r).b == old(r).b,
        match p_list(old(r).s(), old(r).i as int, n as nat, p_u32_fn()) {
            Ok((v, j)) => res matches Ok(x) && x@ == v && final(r).i == j,
            Err(e) => res matches Err(x) && x == e,
        },
{
    let ghost s = r.s();
    let ghost b0 = r.b;
    let ghost j0 = r.i as int;
    let mut out: Vec<u32> = Vec::new();
    let mut k: u32 = 0;
    while k < n
        invariant
            r.ok(),
            r.s() == s,
            r.b == b0,
            k <= n,
            p_list(s, j0, n as nat, p_u32_fn()) == p_list_from(
                out@,
                s,
                r.i as int,
                (n - k) as nat,
                p_u32_fn(),
            ),
        decreases n - k,
    {
        let x = r.u32()?;
        let ghost before = out@;
        out.push(x);
        k = k + 1;
        proof {
            let rest = p_list(s, r.i as int, (n - k) as nat, p_u32_fn());
            if rest is Ok {
                let (xs, e) = rest->Ok_0;
                assert(before + (seq![x] + xs) =~= out@ + xs);
            }
        }
    }
    assert(out@ + Seq::<u32>::empty() =~= out@);
    Ok(out)
}

fn get_backdrop(r: &mut R) -> (res: Result<Option<Backdrop>, WireError>)
    requires
        old(r).ok(),
    ensures
        final(r).ok(),
        final(r).b == old(r).b,
        match p_backdrop(old(r).s(), old(r).i as int) {
            Ok((v, j)) => res matches Ok(x) && backdrop_view(x) == v && final(r).i == j,
            Err(e) => res matches Err(x) && x == e,
        },
{
    let n = r.u32()?;
    if n == 0 {
        return Ok(None);
    }
    let rect = r.f4()?;
    let first = r.u32()?;
    let sigmas = get_u32s(r, n)?;
    Ok(Some(Backdrop { rect, first, sigmas }))
}

/// Read a draw list at the reader's cursor.
pub fn get_list(r: &mut R) -> (res: Result<DrawList, WireError>)
    requires
        old(r).ok(),
    ensures
        final(r).ok(),
        final(r).b == old(r).b,
        match p_drawlist(old(r).s(), old(r).i as int) {
            Ok((v, j)) => res matches Ok(x) && x@ == v && final(r).i == j,
            Err(e) => res matches Err(x) && x == e,
        },
{
    let quads = get_quads(r)?;
    let runs = get_runs(r)?;
    let clips = get_clips(r)?;
    let clear = r.f4()?;
    let scrollers = get_scrollers(r)?;
    let wants_frame = r.bool()?;
    let gpu_only = r.bool()?;
    let repeat_until_ms = r.u32()?;
    let serial = r.u64()?;
    let backdrop = get_backdrop(r)?;
    Ok(
        DrawList {
            quads,
            runs,
            clips,
            clear,
            wants_frame,
            gpu_only,
            repeat_until_ms,
            serial,
            cpu_bound: false,
            scrollers,
            backdrop,
        },
    )
}


// ------------------------------------------------------------------ round trip

/// A list the wire can say whole: each quad sparse-clean, every count
/// within a `u32`, arrays their length, nothing that stays behind on the
/// window's side, and a backdrop with at least one pass.
pub open spec fn wf_drawlist(d: DrawListModel) -> bool {
    &&& d.quads.len() <= u32::MAX
    &&& forall|k: int| 0 <= k < d.quads.len() ==> wf_quad(#[trigger] d.quads[k])
    &&& d.runs.len() <= u32::MAX
    &&& d.clips.len() <= u32::MAX
    &&& forall|k: int| 0 <= k < d.clips.len() ==> (#[trigger] d.clips[k]).len() == 4
    &&& d.clear.len() == 4
    &&& d.scrollers.len() <= u32::MAX
    &&& forall|k: int|
        0 <= k < d.scrollers.len() ==> (#[trigger] d.scrollers[k]).from.len() == 2
            && d.scrollers[k].to.len() == 2 && d.scrollers[k].pad == 0
    &&& !d.cpu_bound
    &&& d.backdrop matches Some(b) ==> b.rect.len() == 4 && 0 < b.sigmas.len() <= u32::MAX
}

proof fn lemma_read_run(s: Seq<u8>, j: int, r: Run)
    requires
        at(s, j, enc_run(r)),
    ensures
        p_run(s, j) == Ok::<(Run, int), WireError>((r, j + enc_run(r).len())),
{
    lemma_read_f4(s, j, seq![r.clip, r.chain, r.first, r.count]);
}

proof fn lemma_read_scroller(s: Seq<u8>, j: int, x: ScrollerModel)
    requires
        at(s, j, enc_scroller(x)),
        x.from.len() == 2,
        x.to.len() == 2,
        x.pad == 0,
    ensures
        p_scroller(s, j) == Ok::<(ScrollerModel, int), WireError>((x, j + enc_scroller(x).len())),
{
    let v = seq![x.from[0], x.from[1], x.to[0], x.to[1]];
    let a = enc_f4(v);
    let b = enc_u32(x.t0);
    let c = enc_u32(x.dur);
    lemma_at_split(s, j, a + b + c, enc_u32(x.curve));
    lemma_at_split(s, j, a + b, c);
    lemma_at_split(s, j, a, b);
    lemma_read_f4(s, j, v);
    lemma_read_u32(s, j + 16, x.t0);
    lemma_read_u32(s, j + 20, x.dur);
    lemma_read_u32(s, j + 24, x.curve);
    assert(seq![v[0], v[1]] =~= x.from);
    assert(seq![v[2], v[3]] =~= x.to);
}

proof fn lemma_read_backdrop(s: Seq<u8>, i: int, b: Option<BackdropModel>)
    requires
        at(s, i, enc_backdrop(b)),
        b matches Some(x) ==> x.rect.len() == 4 && 0 < x.sigmas.len() <= u32::MAX,
    ensures
        p_backdrop(s, i) == Ok::<(Option<BackdropModel>, int), WireError>(
            (b, i + enc_backdrop(b).len()),
        ),
{
    match b {
        None => {
            lemma_read_u32(s, i, 0);
        },
        Some(x) => {
            let a = enc_u32(wire_len(x.sigmas.len()));
            let r = enc_f4(x.rect);
            let f = enc_u32(x.first);
            let l = enc_list(x.sigmas, enc_u32_fn());
            lemma_at_split(s, i, a + r + f, l);
            lemma_at_split(s, i, a + r, f);
            lemma_at_split(s, i, a, r);
            lemma_read_u32(s, i, wire_len(x.sigmas.len()));
            lemma_read_f4(s, i + 4, x.rect);
            lemma_read_u32(s, i + 20, x.first);
            assert forall|k: int, jj: int|
                0 <= k < x.sigmas.len() && #[trigger] at(s, jj, enc_u32_fn()(x.sigmas[k])) implies p_u32_fn()(
                s,
                jj,
            ) == Ok::<(u32, int), WireError>((x.sigmas[k], jj + enc_u32_fn()(x.sigmas[k]).len())) by {
                lemma_read_u32(s, jj, x.sigmas[k]);
            }
            lemma_read_list(s, i + 24, x.sigmas, enc_u32_fn(), p_u32_fn());
        },
    }
}

proof fn lemma_read_quads(s: Seq<u8>, i: int, qs: Seq<QuadModel>)
    requires
        at(s, i, enc_counted(qs, enc_quad_fn())),
        qs.len() <= u32::MAX,
        forall|k: int| 0 <= k < qs.len() ==> wf_quad(#[trigger] qs[k]),
    ensures
        p_counted(s, i, p_quad_fn()) == Ok::<(Seq<QuadModel>, int), WireError>(
            (qs, i + enc_counted(qs, enc_quad_fn()).len()),
        ),
{
    assert forall|k: int, j: int|
        0 <= k < qs.len() && #[trigger] at(s, j, enc_quad_fn()(qs[k])) implies p_quad_fn()(s, j)
        == Ok::<(QuadModel, int), WireError>((qs[k], j + enc_quad_fn()(qs[k]).len())) by {
        lemma_read_quad(s, j, qs[k]);
    }
    lemma_read_counted(s, i, qs, enc_quad_fn(), p_quad_fn());
}

proof fn lemma_read_runs(s: Seq<u8>, i: int, rs: Seq<Run>)
    requires
        at(s, i, enc_counted(rs, enc_run_fn())),
        rs.len() <= u32::MAX,
    ensures
        p_counted(s, i, p_run_fn()) == Ok::<(Seq<Run>, int), WireError>(
            (rs, i + enc_counted(rs, enc_run_fn()).len()),
        ),
{
    assert forall|k: int, j: int|
        0 <= k < rs.len() && #[trigger] at(s, j, enc_run_fn()(rs[k])) implies p_run_fn()(s, j)
        == Ok::<(Run, int), WireError>((rs[k], j + enc_run_fn()(rs[k]).len())) by {
        lemma_read_run(s, j, rs[k]);
    }
    lemma_read_counted(s, i, rs, enc_run_fn(), p_run_fn());
}

proof fn lemma_read_clips(s: Seq<u8>, i: int, cs: Seq<Seq<u32>>)
    requires
        at(s, i, enc_counted(cs, enc_f4_fn())),
        cs.len() <= u32::MAX,
        forall|k: int| 0 <= k < cs.len() ==> (#[trigger] cs[k]).len() == 4,
    ensures
        p_counted(s, i, p_f4_fn()) == Ok::<(Seq<Seq<u32>>, int), WireError>(
            (cs, i + enc_counted(cs, enc_f4_fn()).len()),
        ),
{
    assert forall|k: int, j: int|
        0 <= k < cs.len() && #[trigger] at(s, j, enc_f4_fn()(cs[k])) implies p_f4_fn()(s, j)
        == Ok::<(Seq<u32>, int), WireError>((cs[k], j + enc_f4_fn()(cs[k]).len())) by {
        lemma_read_f4(s, j, cs[k]);
    }
    lemma_read_counted(s, i, cs, enc_f4_fn(), p_f4_fn());
}

proof fn lemma_read_dl_a(s: Seq<u8>, i: int, d: DrawListModel)
    requires
        at(s, i, enc_dl_a(d)),
        wf_drawlist(d),
    ensures
        p_dl_a(s, i) == Ok::<((Seq<QuadModel>, Seq<Run>, Seq<Seq<u32>>, Seq<u32>), int), WireError>(
            ((d.quads, d.runs, d.clips, d.clear), i + enc_dl_a(d).len()),
        ),
{
    let a = enc_counted(d.quads, enc_quad_fn());
    let b = enc_counted(d.runs, enc_run_fn());
    let c = enc_counted(d.clips, enc_f4_fn());
    lemma_at_split(s, i, a + b + c, enc_f4(d.clear));
    lemma_at_split(s, i, a + b, c);
    lemma_at_split(s, i, a, b);
    lemma_read_quads(s, i, d.quads);
    lemma_read_runs(s, i + a.len(), d.runs);
    lemma_read_clips(s, i + a.len() + b.len(), d.clips);
    lemma_read_f4(s, i + a.len() + b.len() + c.len(), d.clear);
}

proof fn lemma_read_scrollers(s: Seq<u8>, i: int, xs: Seq<ScrollerModel>)
    requires
        at(s, i, enc_counted(xs, enc_scroller_fn())),
        xs.len() <= u32::MAX,
        forall|k: int|
            0 <= k < xs.len() ==> (#[trigger] xs[k]).from.len() == 2 && xs[k].to.len() == 2
                && xs[k].pad == 0,
    ensures
        p_counted(s, i, p_scroller_fn()) == Ok::<(Seq<ScrollerModel>, int), WireError>(
            (xs, i + enc_counted(xs, enc_scroller_fn()).len()),
        ),
{
    assert forall|k: int, j: int|
        0 <= k < xs.len() && #[trigger] at(s, j, enc_scroller_fn()(xs[k])) implies p_scroller_fn()(
        s,
        j,
    ) == Ok::<(ScrollerModel, int), WireError>((xs[k], j + enc_scroller_fn()(xs[k]).len())) by {
        lemma_read_scroller(s, j, xs[k]);
    }
    lemma_read_counted(s, i, xs, enc_scroller_fn(), p_scroller_fn());
}

proof fn lemma_read_dl_b(s: Seq<u8>, i: int, d: DrawListModel)
    requires
        at(s, i, enc_dl_b(d)),
        wf_drawlist(d),
    ensures
        p_dl_b(s, i) == Ok::<
            ((Seq<ScrollerModel>, bool, bool, u32, u64, Option<BackdropModel>), int),
            WireError,
        >(
            (
                (d.scrollers, d.wants_frame, d.gpu_only, d.repeat_until_ms, d.serial, d.backdrop),
                i + enc_dl_b(d).len(),
            ),
        ),
{
    let a = enc_counted(d.scrollers, enc_scroller_fn());
    let b = enc_bool(d.wants_frame);
    let c = enc_bool(d.gpu_only);
    let e = enc_u32(d.repeat_until_ms);
    let f = enc_u64(d.serial);
    lemma_at_split(s, i, a + b + c + e + f, enc_backdrop(d.backdrop));
    lemma_at_split(s, i, a + b + c + e, f);
    lemma_at_split(s, i, a + b + c, e);
    lemma_at_split(s, i, a + b, c);
    lemma_at_split(s, i, a, b);
    lemma_read_scrollers(s, i, d.scrollers);
    lemma_read_bool(s, i + a.len(), d.wants_frame);
    lemma_read_bool(s, i + a.len() + 1, d.gpu_only);
    lemma_read_u32(s, i + a.len() + 2, d.repeat_until_ms);
    lemma_read_u64(s, i + a.len() + 6, d.serial);
    lemma_read_backdrop(s, i + a.len() + 14, d.backdrop);
}

/// What is written is what is read: a well-formed list comes back whole
/// from the bytes `put_list` writes for it, wherever they stand.
pub proof fn lemma_read_drawlist(s: Seq<u8>, i: int, d: DrawListModel)
    requires
        at(s, i, enc_drawlist(d)),
        wf_drawlist(d),
    ensures
        p_drawlist(s, i) == Ok::<(DrawListModel, int), WireError>((d, i + enc_drawlist(d).len())),
{
    lemma_at_split(s, i, enc_dl_a(d), enc_dl_b(d));
    lemma_read_dl_a(s, i, d);
    lemma_read_dl_b(s, i + enc_dl_a(d).len(), d);
}

} // verus!
