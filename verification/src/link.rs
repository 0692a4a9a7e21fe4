//! The window's side of one worker, as decisions: what a request comes
//! to before anything crosses the pipe, what a reply changes once it is
//! read, and what a worker that stopped answering leaves behind.
//!
//! Writing to the pipe, reading from it and waiting for the worker are the
//! caller's; so is the clock, in milliseconds.

use vstd::prelude::*;

use crate::driver::{FileAsk, FileAskModel, FileWant, FileWrite};
use crate::pipe::{answer_at, blank, blank_status, keep, kept, repeat_of, write_message, Repeat};
use crate::reply::{
    ask_views, bytes_views, opt_str_view, write_views, Reply, ReplyModel, Status, StatusModel,
};
use crate::wire::{enc_u32, WireError};
use crate::worker::{enc_request, Request};

verus! {

/// The latest moment a link is told about: far enough below `u64::MAX`
/// that a `u32` of milliseconds added to it still fits.
pub const CLOCK_MAX: u64 = 18446744069414584320;

/// A worker as the window holds it.
pub struct Link {
    dead: Option<String>,
    repeat: Option<Repeat>,
    status: Status,
    traffic: (u64, u64),
    due: Option<u64>,
    received: u64,
}

/// A [`Link`] as values.
pub struct LinkModel {
    /// Why the worker stopped answering, once it has.
    pub dead: Option<Seq<char>>,
    /// The last paint, while the driver said it may be drawn again.
    pub repeat: Option<(ReplyModel, Option<u64>)>,
    /// The state after the last reply, with what the window has not
    /// collected yet.
    pub status: StatusModel,
    /// Bytes written to the pipe and read from it, framing included.
    pub traffic: (u64, u64),
    /// When the last reply's `next_due_ms` was taken.
    pub due: Option<u64>,
    /// When the last paint arrived.
    pub received: u64,
}

impl View for Link {
    type V = LinkModel;

    closed spec fn view(&self) -> LinkModel {
        LinkModel {
            dead: opt_str_view(self.dead),
            repeat: match self.repeat {
                Some(r) => Some(r@),
                None => None,
            },
            status: self.status@,
            traffic: self.traffic,
            due: self.due,
            received: self.received,
        }
    }
}

/// What a request comes to before the pipe.
pub enum Step {
    /// The worker stopped answering; nothing is asked of it again.
    Dead,
    /// A paint answered from the last one, the pipe untouched.
    Answered(Reply),
    /// These bytes go down the pipe, and a reply is to be read.
    Send(Vec<u8>),
    /// The request is longer than a message can say.
    TooLong,
}

/// `a + b`, or the most a `u64` holds.
pub open spec fn sat_add(a: u64, b: int) -> u64 {
    if a + b > u64::MAX {
        u64::MAX
    } else {
        (a + b) as u64
    }
}

fn copy_bytes(v: &Vec<u8>) -> (r: Vec<u8>)
    ensures
        r@ == v@,
{
    let mut r: Vec<u8> = Vec::new();
    r.extend_from_slice(v.as_slice());
    r
}

fn copy_opt_string(o: &Option<String>) -> (r: Option<String>)
    ensures
        opt_str_view(r) == opt_str_view(*o),
{
    match o {
        Some(s) => Some(s.clone()),
        None => None,
    }
}

fn copy_outbound(v: &Vec<Vec<u8>>) -> (r: Vec<Vec<u8>>)
    ensures
        bytes_views(r@) == bytes_views(v@),
{
    let mut r: Vec<Vec<u8>> = Vec::new();
    let mut k: usize = 0;
    while k < v.len()
        invariant
            k <= v@.len(),
            r@.len() == k,
            forall|j: int| 0 <= j < k ==> (#[trigger] r@[j])@ == v@[j]@,
        decreases v.len() - k,
    {
        r.push(copy_bytes(&v[k]));
        k = k + 1;
    }
    assert(bytes_views(r@) =~= bytes_views(v@));
    r
}

fn copy_ask(a: &FileAsk) -> (r: FileAsk)
    ensures
        r@ == a@,
{
    let want = match &a.want {
        FileWant::Open { accept, multiple, max, source } => FileWant::Open {
            accept: accept.clone(),
            multiple: *multiple,
            max: *max,
            source: *source,
        },
        FileWant::Save { name } => FileWant::Save { name: name.clone() },
    };
    FileAsk { token: a.token, node: a.node, want }
}

fn copy_asks(v: &Vec<FileAsk>) -> (r: Vec<FileAsk>)
    ensures
        ask_views(r@) == ask_views(v@),
{
    let mut r: Vec<FileAsk> = Vec::new();
    let mut k: usize = 0;
    while k < v.len()
        invariant
            k <= v@.len(),
            r@.len() == k,
            forall|j: int| 0 <= j < k ==> (#[trigger] r@[j])@ == v@[j]@,
        decreases v.len() - k,
    {
        r.push(copy_ask(&v[k]));
        k = k + 1;
    }
    assert(ask_views(r@) =~= ask_views(v@));
    r
}

fn copy_writes(v: &Vec<FileWrite>) -> (r: Vec<FileWrite>)
    ensures
        write_views(r@) == write_views(v@),
{
    let mut r: Vec<FileWrite> = Vec::new();
    let mut k: usize = 0;
    while k < v.len()
        invariant
            k <= v@.len(),
            r@.len() == k,
            forall|j: int| 0 <= j < k ==> (#[trigger] r@[j])@ == v@[j]@,
        decreases v.len() - k,
    {
        let w = &v[k];
        r.push(FileWrite { token: w.token, flag: w.flag, bytes: copy_bytes(&w.bytes) });
        k = k + 1;
    }
    assert(write_views(r@) =~= write_views(v@));
    r
}

/// A status with the same contents.
fn copy_status(s: &Status) -> (r: Status)
    ensures
        r@ == s@,
{
    Status {
        outbound: copy_outbound(&s.outbound),
        needs_redraw: s.needs_redraw,
        closed: copy_opt_string(&s.closed),
        ime: s.ime,
        clipboard: copy_opt_string(&s.clipboard),
        next_due_ms: s.next_due_ms,
        cursor: s.cursor,
        audio: s.audio,
        video: s.video,
        files: copy_asks(&s.files),
        writes: copy_writes(&s.writes),
    }
}

impl Link {
    #[verifier::type_invariant]
    spec fn timely(self) -> bool {
        self.due matches Some(d) ==> d <= CLOCK_MAX
    }

    /// A worker that has just started, at `now`: nothing to show yet.
    pub fn new(now: u64) -> (r: Link)
        ensures
            r@ == (LinkModel {
                dead: None,
                repeat: None,
                status: blank(false, None),
                traffic: (0, 0),
                due: None,
                received: now,
            }),
    {
        Link {
            dead: None,
            repeat: None,
            status: blank_status(false, None),
            traffic: (0, 0),
            due: None,
            received: now,
        }
    }

    /// The state after the last reply.
    pub fn status(&self) -> (r: &Status)
        ensures
            r@ == self@.status,
    {
        &self.status
    }

    /// `(sent, received)` bytes over the pipe since the worker started.
    pub fn traffic(&self) -> (r: (u64, u64))
        ensures
            r == self@.traffic,
    {
        self.traffic
    }

    /// Why the worker stopped answering, once it has.
    pub fn dead(&self) -> (r: Option<String>)
        ensures
            opt_str_view(r) == self@.dead,
    {
        copy_opt_string(&self.dead)
    }

    /// When the next frame is due: the last reply's `next_due_ms` after
    /// the moment it was taken, or after `now` if none was.
    pub fn next_frame_at(&self, now: u64) -> (r: Option<u64>)
        requires
            now <= CLOCK_MAX,
        ensures
            r == match self@.status.next_due_ms {
                Some(ms) => Some(
                    (match self@.due {
                        Some(d) => d,
                        None => now,
                    } + ms) as u64,
                ),
                None => None::<u64>,
            },
    {
        proof {
            use_type_invariant(self);
        }
        match self.status.next_due_ms {
            Some(ms) => {
                let from = match self.due {
                    Some(d) => d,
                    None => now,
                };
                Some(from + ms as u64)
            },
            None => None,
        }
    }

    /// What `request` at `now` comes to before the pipe.
    ///
    /// A worker that stopped answering is asked nothing. A paint while the
    /// driver said the last list may be drawn again is answered from it,
    /// the pipe untouched. Anything but a paint or a tick may change what
    /// the tree paints, and forgets that list; then the request goes down
    /// the pipe, framed.
    pub fn ask(&mut self, request: &Request, now: u64) -> (r: Step)
        requires
            old(self)@.dead is None ==> now <= CLOCK_MAX,
        ensures
            ({
                let m = old(self)@;
                let n = final(self)@;
                let repeated = match m.repeat {
                    Some(rp) => if (request matches Request::Paint(..)) {
                        answer_at(rp, now)
                    } else {
                        None
                    },
                    None => None,
                };
                &&& m.dead is Some ==> r is Dead && n == m
                &&& m.dead is None && repeated is Some ==> (r matches Step::Answered(x) && Some(x@)
                    == repeated && n == (LinkModel {
                    status: kept(m.status, x@.status),
                    due: Some(now),
                    ..m
                }))
                &&& m.dead is None && repeated is None ==> ({
                    let body = enc_request(request@);
                    &&& n == (LinkModel {
                        repeat: if (request matches Request::Paint(..) || request matches Request::Tick) {
                            m.repeat
                        } else {
                            None
                        },
                        ..m
                    })
                    &&& body.len() <= u32::MAX ==> (r matches Step::Send(v) && v@ == enc_u32(
                        body.len() as u32,
                    ) + body)
                    &&& body.len() > u32::MAX ==> r is TooLong
                })
            }),
    {
        proof {
            use_type_invariant(&*self);
        }
        if self.dead.is_some() {
            return Step::Dead;
        }
        if let Request::Paint(..) = request {
            let answered = match &self.repeat {
                Some(rp) => rp.answer(now),
                None => None,
            };
            if let Some(reply) = answered {
                let mut old_status = blank_status(false, None);
                std::mem::swap(&mut old_status, &mut self.status);
                self.status = keep(old_status, copy_status(&reply.status));
                self.due = Some(now);
                return Step::Answered(reply);
            }
        }
        if !Repeat::survives(request) {
            self.repeat = None;
        }
        let encoded = request.encode();
        match write_message(encoded.as_slice()) {
            Some(framed) => Step::Send(framed),
            None => Step::TooLong,
        }
    }

    /// What the `got` bytes read back, for a request of `sent` bytes, did
    /// at `now`: the traffic counts both, framing included, and a reply
    /// that is one is kept. A paint starts the list's clock, and is kept to
    /// answer the next paint while the driver said it may be.
    pub fn answered(&mut self, sent: usize, got: &[u8], now: u64) -> (r: Result<Reply, WireError>)
        requires
            now <= CLOCK_MAX,
        ensures
            ({
                let m = old(self)@;
                let n = final(self)@;
                let traffic = (sat_add(m.traffic.0, sent + 4), sat_add(m.traffic.1, got@.len() as int + 4));
                match crate::reply::p_reply(got@) {
                    Ok(v) => r matches Ok(x) && x@ == v && n == (LinkModel {
                        status: kept(m.status, v.status),
                        due: Some(now),
                        traffic,
                        received: if v.payload is Paint {
                            now
                        } else {
                            m.received
                        },
                        repeat: if v.payload is Paint {
                            repeat_of(v, now)
                        } else {
                            m.repeat
                        },
                        ..m
                    }),
                    Err(e) => r == Err::<Reply, WireError>(e) && n == (LinkModel { traffic, ..m }),
                }
            }),
    {
        proof {
            use_type_invariant(&*self);
        }
        let up = if self.traffic.0 > 18446744073709551611 || sent as u64 > 18446744073709551611
            - self.traffic.0 {
            18446744073709551615u64
        } else {
            self.traffic.0 + sent as u64 + 4
        };
        let down = if self.traffic.1 > 18446744073709551611 || got.len() as u64
            > 18446744073709551611 - self.traffic.1 {
            18446744073709551615u64
        } else {
            self.traffic.1 + got.len() as u64 + 4
        };
        self.traffic = (up, down);
        let reply = match Reply::decode(got) {
            Ok(x) => x,
            Err(e) => return Err(e),
        };
        let mut old_status = blank_status(false, None);
        std::mem::swap(&mut old_status, &mut self.status);
        self.status = keep(old_status, copy_status(&reply.status));
        self.due = Some(now);
        if let crate::reply::Payload::Paint { .. } = reply.payload {
            self.received = now;
            self.repeat = Repeat::of(&reply, now);
        }
        Ok(reply)
    }

    /// Text the viewer copied since the last call; taken, so it is handed
    /// to the clipboard once.
    pub fn take_clipboard(&mut self) -> (r: Option<String>)
        ensures
            opt_str_view(r) == old(self)@.status.clipboard,
            final(self)@ == (LinkModel {
                status: StatusModel { clipboard: None, ..old(self)@.status },
                ..old(self)@
            }),
    {
        proof {
            use_type_invariant(&*self);
        }
        let mut r: Option<String> = None;
        std::mem::swap(&mut r, &mut self.status.clipboard);
        r
    }

    /// The dialogs the tree asked for since the last call; taken, so each
    /// is opened once.
    pub fn take_file_asks(&mut self) -> (r: Vec<FileAsk>)
        ensures
            ask_views(r@) == old(self)@.status.files,
            final(self)@ == (LinkModel {
                status: StatusModel { files: Seq::empty(), ..old(self)@.status },
                ..old(self)@
            }),
    {
        proof {
            use_type_invariant(&*self);
        }
        let mut files: Vec<FileAsk> = Vec::new();
        std::mem::swap(&mut files, &mut self.status.files);
        assert(ask_views(self.status.files@) =~= Seq::<FileAskModel>::empty());
        files
    }

    /// The bytes saves are owed since the last call; taken, so each is
    /// written once.
    pub fn take_writes(&mut self) -> (r: Vec<FileWrite>)
        ensures
            write_views(r@) == old(self)@.status.writes,
            final(self)@ == (LinkModel {
                status: StatusModel { writes: Seq::empty(), ..old(self)@.status },
                ..old(self)@
            }),
    {
        proof {
            use_type_invariant(&*self);
        }
        let mut writes: Vec<FileWrite> = Vec::new();
        std::mem::swap(&mut writes, &mut self.status.writes);
        assert(write_views(self.status.writes@) =~= Seq::<crate::driver::FileWriteModel>::empty());
        writes
    }

    /// The worker stopped answering, and `why`: the session is closed with
    /// that, nothing is due, and nothing is asked of the worker again.
    pub fn fail(&mut self, why: String)
        ensures
            final(self)@ == (LinkModel {
                dead: Some(why@),
                status: StatusModel {
                    closed: Some(why@),
                    needs_redraw: false,
                    next_due_ms: None,
                    ..old(self)@.status
                },
                ..old(self)@
            }),
    {
        proof {
            use_type_invariant(&*self);
        }
        self.status.closed = Some(why.clone());
        self.status.needs_redraw = false;
        self.status.next_due_ms = None;
        self.dead = Some(why);
    }
}

} // verus!
