//! The window's side of the pipe to its worker: how a message is framed,
//! what a status keeps between replies, and the paint that may be answered
//! again without waking the worker.
//!
//! Time is milliseconds on the window's own monotonic clock. Writing and
//! reading the pipe, and the clock itself, are the caller's.

use vstd::prelude::*;

use crate::drawlist::{backdrop_view, Backdrop, DrawList};
use crate::reply::{glyph_views, Payload, PayloadModel, Reply, Status, StatusModel};
use crate::wire::{enc_u32, le32, W};
use crate::worker::Request;

verus! {

/// The longest reply the window reads.
pub const MAX_REPLY: usize = 67108864;

/// A message on the pipe: its length as four little-endian bytes, then the
/// message. None when the length does not fit the four bytes.
pub fn write_message(payload: &[u8]) -> (r: Option<Vec<u8>>)
    ensures
        r is Some <==> payload@.len() <= u32::MAX,
        r matches Some(v) ==> v@ == enc_u32(payload@.len() as u32) + payload@,
{
    if payload.len() > 4294967295 {
        return None;
    }
    let mut w = W::new();
    w.u32(payload.len() as u32);
    w.raw(payload);
    Some(w.buf)
}

/// The length a message's first four bytes announce, when it is no more
/// than `max`; none when a reader must refuse it.
pub fn read_message(head: [u8; 4], max: usize) -> (r: Option<usize>)
    ensures
        r is Some <==> le32(head@, 0) <= max,
        r matches Some(n) ==> n == le32(head@, 0),
{
    let n = head[0] as u32 + (head[1] as u32) * 256 + (head[2] as u32) * 65536 + (head[3] as u32)
        * 16777216;
    if n as usize > max {
        None
    } else {
        Some(n as usize)
    }
}

/// What a reader of a framed message reads back as its length is the
/// length it was framed with.
pub proof fn lemma_message_round_trip(payload: Seq<u8>, max: nat)
    requires
        payload.len() <= u32::MAX,
        payload.len() <= max,
    ensures
        ({
            let framed = enc_u32(payload.len() as u32) + payload;
            &&& le32(framed.take(4), 0) == payload.len()
            &&& framed.skip(4) == payload
        }),
{
    let framed = enc_u32(payload.len() as u32) + payload;
    crate::wire::lemma_u32_round(payload.len() as u32);
    assert(framed.take(4) =~= enc_u32(payload.len() as u32));
    assert(framed.skip(4) =~= payload);
}

// ------------------------------------------------------------------ status

/// The status after a reply, keeping what the window has not collected
/// yet: a dialog and a chunk of a file are events, and a second reply
/// before the window looked must not drop them. A clipboard hand-off waits
/// the same way until a newer one replaces it. Everything else is the
/// driver's state now.
pub open spec fn kept(held: StatusModel, incoming: StatusModel) -> StatusModel {
    StatusModel {
        files: held.files + incoming.files,
        writes: held.writes + incoming.writes,
        clipboard: if incoming.clipboard is None {
            held.clipboard
        } else {
            incoming.clipboard
        },
        ..incoming
    }
}

pub fn keep(held: Status, incoming: Status) -> (r: Status)
    ensures
        r@ == kept(held@, incoming@),
{
    let mut held = held;
    let mut status = incoming;
    let ghost h = held@;
    let ghost i = status@;
    let mut files = Vec::new();
    std::mem::swap(&mut files, &mut held.files);
    files.append(&mut status.files);
    status.files = files;
    let mut writes = Vec::new();
    std::mem::swap(&mut writes, &mut held.writes);
    writes.append(&mut status.writes);
    status.writes = writes;
    if status.clipboard.is_none() {
        status.clipboard = held.clipboard;
    }
    assert(status@.files =~= h.files + i.files);
    assert(status@.writes =~= h.writes + i.writes);
    status
}

// ------------------------------------------------------------------ repeat

/// A status with nothing in it.
pub open spec fn blank(needs_redraw: bool, next_due_ms: Option<u32>) -> StatusModel {
    StatusModel {
        outbound: Seq::empty(),
        needs_redraw,
        closed: None,
        ime: None,
        clipboard: None,
        next_due_ms,
        cursor: 0,
        audio: false,
        video: false,
        files: Seq::empty(),
        writes: Seq::empty(),
    }
}

/// A paint reply the window may hand back for the next paint, with
/// everything that happens once taken out: frames bound for the server, a
/// clipboard hand-off, an IME rect and the atlas rows answer something that
/// already happened. What is left is the list, that a redraw is wanted,
/// and when.
#[derive(Debug, PartialEq, Eq)]
pub struct Repeat {
    reply: Reply,
    /// The last moment the list is right; none for as long as nothing
    /// reaches the driver.
    until: Option<u64>,
}

impl View for Repeat {
    type V = (crate::reply::ReplyModel, Option<u64>);

    closed spec fn view(&self) -> (crate::reply::ReplyModel, Option<u64>) {
        (self.reply@, self.until)
    }
}

fn copy_vec<T: Copy>(v: &Vec<T>) -> (r: Vec<T>)
    ensures
        r@ == v@,
{
    let mut r: Vec<T> = Vec::new();
    let mut k: usize = 0;
    while k < v.len()
        invariant
            k <= v@.len(),
            r@ == v@.take(k as int),
        decreases v.len() - k,
    {
        r.push(v[k]);
        k = k + 1;
        assert(r@ =~= v@.take(k as int));
    }
    assert(v@.take(k as int) =~= v@);
    r
}

fn copy_list(d: &DrawList) -> (r: DrawList)
    ensures
        r@ == d@,
{
    let backdrop = match &d.backdrop {
        Some(b) => Some(Backdrop { rect: b.rect, first: b.first, sigmas: copy_vec(&b.sigmas) }),
        None => None,
    };
    let r = DrawList {
        quads: copy_vec(&d.quads),
        runs: copy_vec(&d.runs),
        clips: copy_vec(&d.clips),
        clear: d.clear,
        wants_frame: d.wants_frame,
        gpu_only: d.gpu_only,
        repeat_until_ms: d.repeat_until_ms,
        serial: d.serial,
        cpu_bound: d.cpu_bound,
        scrollers: copy_vec(&d.scrollers),
        backdrop,
    };
    assert(backdrop_view(r.backdrop) == backdrop_view(d.backdrop));
    r
}

pub(crate) fn blank_status(needs_redraw: bool, next_due_ms: Option<u32>) -> (s: Status)
    ensures
        s@ == blank(needs_redraw, next_due_ms),
{
    let s = Status {
        outbound: Vec::new(),
        needs_redraw,
        closed: None,
        ime: None,
        clipboard: None,
        next_due_ms,
        cursor: 0,
        audio: false,
        video: false,
        files: Vec::new(),
        writes: Vec::new(),
    };
    assert(s@.outbound =~= Seq::<Seq<u8>>::empty());
    assert(s@.files =~= blank(needs_redraw, next_due_ms).files);
    assert(s@.writes =~= blank(needs_redraw, next_due_ms).writes);
    s
}

/// What a paint reply received at `received` leaves for the paints after
/// it, as values: the reply with nothing in it that happens once, and the
/// last moment its list is right.
pub open spec fn repeat_of(reply: crate::reply::ReplyModel, received: u64) -> Option<
    (crate::reply::ReplyModel, Option<u64>),
> {
    match reply.payload {
        PayloadModel::Paint { list, .. } => if list.gpu_only && reply.status.closed is None {
            Some(
                (
                    crate::reply::ReplyModel {
                        status: blank(reply.status.needs_redraw, reply.status.next_due_ms),
                        payload: PayloadModel::Paint { list, glyphs: Seq::empty(), images: None },
                    },
                    if list.repeat_until_ms == u32::MAX {
                        None::<u64>
                    } else {
                        Some((received + list.repeat_until_ms) as u64)
                    },
                ),
            )
        } else {
            None
        },
        _ => None,
    }
}

/// The reply a kept paint gives at `now`, as values, unless its list has
/// run out.
pub open spec fn answer_at(rp: (crate::reply::ReplyModel, Option<u64>), now: u64) -> Option<
    crate::reply::ReplyModel,
> {
    if rp.1 matches Some(u) && now >= u {
        None
    } else {
        Some(
            crate::reply::ReplyModel {
                payload: rp.0.payload,
                status: StatusModel {
                    next_due_ms: match rp.1 {
                        Some(u) => {
                            let left = if u - now > u32::MAX {
                                u32::MAX
                            } else {
                                (u - now) as u32
                            };
                            match rp.0.status.next_due_ms {
                                Some(ms) => Some(
                                    if ms < left {
                                        ms
                                    } else {
                                        left
                                    },
                                ),
                                None => Some(left),
                            }
                        },
                        None => rp.0.status.next_due_ms,
                    },
                    ..rp.0.status
                },
            },
        )
    }
}

impl Repeat {
    /// Only a paint is kept, with nothing in it that happens once.
    #[verifier::type_invariant]
    spec fn shaped(self) -> bool {
        &&& self.reply@.status == blank(self.reply@.status.needs_redraw, self.reply@.status.next_due_ms)
        &&& self.reply@.payload matches PayloadModel::Paint { glyphs, images, .. }
        &&& glyphs.len() == 0
        &&& images is None
    }

    /// The last moment the list is right.
    pub fn until(&self) -> (r: Option<u64>)
        ensures
            r == self@.1,
    {
        self.until
    }

    /// What a paint reply received at `received` leaves for the paints
    /// after it: something only when it is a paint the driver said may be
    /// drawn again, of a session that is not closed.
    pub fn of(reply: &Reply, received: u64) -> (r: Option<Repeat>)
        requires
            reply@.payload matches PayloadModel::Paint { list, .. } ==> received
                + list.repeat_until_ms <= u64::MAX,
        ensures
            r is Some <==> (reply@.payload matches PayloadModel::Paint { list, .. } && list.gpu_only
                && reply@.status.closed is None),
            r matches Some(x) ==> ({
                let list = reply@.payload->list;
                &&& x@.0.status == blank(reply@.status.needs_redraw, reply@.status.next_due_ms)
                &&& x@.0.payload == (PayloadModel::Paint {
                    list,
                    glyphs: Seq::empty(),
                    images: None,
                })
                &&& x@.1 == if list.repeat_until_ms == u32::MAX {
                    None::<u64>
                } else {
                    Some((received + list.repeat_until_ms) as u64)
                }
            }),
            match r {
                Some(x) => repeat_of(reply@, received) == Some(x@),
                None => repeat_of(reply@, received) is None,
            },
    {
        match &reply.payload {
            Payload::Paint { list, .. } => {
                if !list.gpu_only || reply.status.closed.is_some() {
                    return None;
                }
                let until = if list.repeat_until_ms != 4294967295 {
                    Some(received + list.repeat_until_ms as u64)
                } else {
                    None
                };
                let glyphs: Vec<(u32, u32, u32, Vec<u8>)> = Vec::new();
                let p = Payload::Paint { list: copy_list(list), glyphs, images: None };
                assert(glyph_views(Seq::<(u32, u32, u32, Vec<u8>)>::empty()) =~= Seq::empty());
                let rep = Reply {
                    status: blank_status(reply.status.needs_redraw, reply.status.next_due_ms),
                    payload: p,
                };
                Some(Repeat { reply: rep, until })
            },
            _ => None,
        }
    }

    /// The reply for a paint at `now`, unless the list has run out: due at
    /// its cadence, and no later than the list runs out.
    pub fn answer(&self, now: u64) -> (r: Option<Reply>)
        ensures
            r is None <==> (self@.1 matches Some(u) && now >= u),
            r matches Some(x) ==> x@.payload == self@.0.payload && x@.status == (StatusModel {
                next_due_ms: match self@.1 {
                    Some(u) => {
                        let left = if u - now > u32::MAX {
                            u32::MAX
                        } else {
                            (u - now) as u32
                        };
                        match self@.0.status.next_due_ms {
                            Some(ms) => Some(if ms < left {
                                ms
                            } else {
                                left
                            }),
                            None => Some(left),
                        }
                    },
                    None => self@.0.status.next_due_ms,
                },
                ..self@.0.status
            }),
            match r {
                Some(x) => answer_at(self@, now) == Some(x@),
                None => answer_at(self@, now) is None,
            },
    {
        proof {
            use_type_invariant(self);
        }
        let left: Option<u32> = match self.until {
            Some(u) => {
                if now >= u {
                    return None;
                }
                let d = u - now;
                Some(if d > 4294967295 {
                    4294967295u32
                } else {
                    d as u32
                })
            },
            None => None,
        };
        let next = match left {
            Some(l) => Some(
                match self.reply.status.next_due_ms {
                    Some(ms) => if ms < l {
                        ms
                    } else {
                        l
                    },
                    None => l,
                },
            ),
            None => self.reply.status.next_due_ms,
        };
        let st = blank_status(self.reply.status.needs_redraw, next);
        let payload = match &self.reply.payload {
            Payload::Paint { list, glyphs, images } => {
                let g: Vec<(u32, u32, u32, Vec<u8>)> = Vec::new();
                assert(glyph_views(g@) =~= glyph_views(glyphs@));
                Payload::Paint { list: copy_list(list), glyphs: g, images: None }
            },
            _ => Payload::Nothing,
        };
        Some(Reply { status: st, payload })
    }

    /// Whether the window can answer `request` from this, or the driver must
    /// be asked and the list forgotten: only a paint and a tick leave the
    /// tree as it was.
    pub fn survives(request: &Request) -> (r: bool)
        ensures
            r == (request matches Request::Paint(..) || request matches Request::Tick),
    {
        match request {
            Request::Paint(..) => true,
            Request::Tick => true,
            _ => false,
        }
    }
}

} // verus!
