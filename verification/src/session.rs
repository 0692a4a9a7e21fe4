//! What the driver decides of a session from what the server says of it:
//! whether its `Welcome` is one to go on with, whether a batch is one it
//! has applied already, and when the clock owes a frame.

use vstd::prelude::*;

use crate::text::{from_chars, push_dec, push_str};

verus! {

/// What a `Welcome` comes to.
#[derive(Debug, Clone, Copy, PartialEq, Eq, Structural)]
pub enum Greeted {
    /// A version this client does not speak: the session is closed, and
    /// the server told so.
    Unsupported(u32),
    /// The resumption of a session the client did not offer: closed, and
    /// the server told so. A tree kept against a server that has forgotten
    /// it would answer clicks the server cannot place.
    NotOffered,
    /// A new session after an earlier one: the tree starts over.
    StartOver,
    /// The session goes on.
    Accepted,
}

/// What a `Welcome` of `version` comes to, when the newest version this
/// client speaks is `newest`, the server says whether it `resumed` the
/// session it names, the client `offered` the one it had, and `welcomed`
/// says whether a `Welcome` came before.
pub open spec fn greeted(
    version: u32,
    newest: u32,
    resumed: bool,
    session: Seq<u8>,
    offered: Option<Seq<u8>>,
    welcomed: bool,
) -> Greeted {
    if version == 0 || version > newest {
        Greeted::Unsupported(version)
    } else if resumed {
        if offered == Some(session) {
            Greeted::Accepted
        } else {
            Greeted::NotOffered
        }
    } else if welcomed {
        Greeted::StartOver
    } else {
        Greeted::Accepted
    }
}

fn same_session(a: &[u8; 16], b: &[u8; 16]) -> (r: bool)
    ensures
        r == (a@ == b@),
{
    let mut k: usize = 0;
    while k < 16
        invariant
            k <= 16,
            a@.len() == 16,
            b@.len() == 16,
            forall|j: int| 0 <= j < k ==> a@[j] == b@[j],
        decreases 16 - k,
    {
        if a[k] != b[k] {
            return false;
        }
        k = k + 1;
    }
    assert(a@ =~= b@);
    true
}

/// [`greeted`], decided.
pub fn welcome(
    version: u32,
    newest: u32,
    resumed: bool,
    session: &[u8; 16],
    offered: Option<&[u8; 16]>,
    welcomed: bool,
) -> (r: Greeted)
    ensures
        r == greeted(
            version,
            newest,
            resumed,
            session@,
            match offered {
                Some(o) => Some(o@),
                None => None,
            },
            welcomed,
        ),
{
    if version == 0 || version > newest {
        Greeted::Unsupported(version)
    } else if resumed {
        match offered {
            Some(o) => if same_session(o, session) {
                Greeted::Accepted
            } else {
                Greeted::NotOffered
            },
            None => Greeted::NotOffered,
        }
    } else if welcomed {
        Greeted::StartOver
    } else {
        Greeted::Accepted
    }
}

/// The error frame a refused `Welcome` sends back: its code and message.
pub open spec fn refusal_of(g: Greeted) -> Option<(u32, Seq<char>)> {
    match g {
        Greeted::Unsupported(v) => Some((100, "unsupported version "@ + crate::text::dec(v as nat))),
        Greeted::NotOffered => Some((103, "resumed a session the client did not offer"@)),
        _ => None,
    }
}

impl Greeted {
    /// The code and message the server is told a refused `Welcome` with;
    /// nothing for one that is gone on with.
    pub fn refusal(&self) -> (r: Option<(u32, String)>)
        ensures
            match r {
                Some((code, text)) => refusal_of(*self) == Some((code, text@)),
                None => refusal_of(*self) is None,
            },
    {
        match self {
            Greeted::Unsupported(v) => {
                let mut t: Vec<char> = Vec::new();
                push_str(&mut t, "unsupported version ");
                push_dec(&mut t, *v as u64);
                Some((100, from_chars(t)))
            },
            Greeted::NotOffered => {
                let mut t: Vec<char> = Vec::new();
                push_str(&mut t, "resumed a session the client did not offer");
                Some((103, from_chars(t)))
            },
            _ => None,
        }
    }
}

/// A batch of sequence `seq` when `acked` is the last one applied: one
/// already applied is acknowledged again, with `acked`, and otherwise
/// ignored, because applying it twice is not always harmless; a later one
/// is applied.
pub open spec fn replayed(seq: u64, acked: u64) -> Option<u64> {
    if seq <= acked {
        Some(acked)
    } else {
        None
    }
}

/// [`replayed`], decided: `Some` of the sequence to acknowledge again, or
/// none when the batch is to be applied.
pub fn replay(seq: u64, acked: u64) -> (r: Option<u64>)
    ensures
        r == replayed(seq, acked),
{
    if seq <= acked {
        Some(acked)
    } else {
        None
    }
}

/// A batch is applied once: once the batch of sequence `seq` is applied,
/// so that it is the last one acknowledged, that batch again, and any
/// earlier one, is only acknowledged.
pub proof fn lemma_applied_once(seq: u64, acked: u64, again: u64)
    requires
        replayed(seq, acked) is None,
        again <= seq,
    ensures
        replayed(again, seq) == Some(seq),
{
}


/// The earlier of two deadlines, either of which may be unset.
pub open spec fn earliest(a: Option<u64>, b: Option<u64>) -> Option<u64> {
    match (a, b) {
        (Some(x), Some(y)) => Some(if x <= y { x } else { y }),
        (Some(x), None) => Some(x),
        (None, y) => y,
    }
}

/// When the next frame is due: the earlier of the transitions' deadline
/// and the viewport's, none at rest. The window sleeps until then.
pub fn next_frame_at(next_due: Option<u64>, viewport_due: Option<u64>) -> (r: Option<u64>)
    ensures
        r == earliest(next_due, viewport_due),
{
    match (next_due, viewport_due) {
        (Some(x), Some(y)) => Some(if x <= y { x } else { y }),
        (Some(x), None) => Some(x),
        (None, y) => y,
    }
}

/// What the clock reaching `now` does: whether a frame is due, which is
/// when the earlier deadline has come, and the transitions' deadline
/// after it, which is spent once it has come and kept otherwise.
pub open spec fn ticked(next_due: Option<u64>, viewport_due: Option<u64>, now: u64) -> (bool, Option<u64>) {
    match earliest(next_due, viewport_due) {
        Some(due) if now >= due => (
            true,
            match next_due {
                Some(d) if now >= d => None,
                _ => next_due,
            },
        ),
        _ => (false, next_due),
    }
}

/// [`ticked`], decided.
pub fn tick(next_due: Option<u64>, viewport_due: Option<u64>, now: u64) -> (r: (bool, Option<u64>))
    ensures
        r == ticked(next_due, viewport_due, now),
{
    match next_frame_at(next_due, viewport_due) {
        Some(due) => if now >= due {
            let after = match next_due {
                Some(d) => if now >= d {
                    None
                } else {
                    next_due
                },
                None => None,
            };
            (true, after)
        } else {
            (false, next_due)
        },
        None => (false, next_due),
    }
}


/// The next frame is due at the earliest deadline that is set: it is one
/// of them, no later than either, and there is none only when neither is
/// set. A viewport deadline alone wakes the window.
pub proof fn lemma_next_frame_is_the_earliest(next_due: Option<u64>, viewport_due: Option<u64>)
    ensures
        earliest(next_due, viewport_due) is None <==> (next_due is None && viewport_due is None),
        earliest(next_due, viewport_due) matches Some(t) ==> (next_due == Some(t) || viewport_due == Some(t))
            && (next_due matches Some(x) ==> t <= x) && (viewport_due matches Some(y) ==> t <= y),
{
}

/// The clock reaching `now` owes a frame exactly when some deadline that
/// is set has come, and the transitions' deadline is spent once it has
/// come and kept while it has not.
pub proof fn lemma_tick_owes_a_frame(next_due: Option<u64>, viewport_due: Option<u64>, now: u64)
    ensures
        ticked(next_due, viewport_due, now).0 <==> ((next_due matches Some(x) && x <= now) || (
        viewport_due matches Some(y) && y <= now)),
        ticked(next_due, viewport_due, now).1 == (if next_due matches Some(x) && x <= now {
            None
        } else {
            next_due
        }),
{
}

} // verus!
