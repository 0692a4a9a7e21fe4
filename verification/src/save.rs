//! A save in progress: the chunks of a file the server owes a save dialog,
//! taken in order, up to a ceiling, and handed to the window to write.

use vstd::prelude::*;

use crate::driver::{Chunked, FileWrite, FileWriteModel};
use crate::text::{dec, push_dec};

verus! {

broadcast use vstd::string::group_string_axioms;

/// A save the person said where to put.
#[derive(Debug, Clone, Copy, PartialEq, Eq, Structural)]
pub struct Save {
    /// The dialog the window still knows the path for.
    pub token: u32,
    /// The next chunk index expected: a gap ends the transfer.
    pub seq: u32,
    /// Bytes handed to the window so far.
    pub written: u64,
}

/// Text as the bytes it is written as, for text that is ASCII.
pub open spec fn ascii(cs: Seq<char>) -> Seq<u8> {
    cs.map_values(|c: char| c as u8)
}

/// Why a transfer that arrives out of order ends.
pub open spec fn out_of_order() -> Seq<u8> {
    ascii("the server sent the chunks out of order"@)
}

/// Why a transfer that would pass `max` bytes ends.
pub open spec fn too_much(max: u64) -> Seq<u8> {
    ascii("more than the "@ + dec(max as nat) + " bytes one save may write"@)
}

/// `a + b`, or the most a `u64` holds.
pub open spec fn sat_add(a: u64, b: int) -> u64 {
    if a + b > u64::MAX {
        u64::MAX
    } else {
        (a + b) as u64
    }
}

/// What chunk `seq` with `flag` and `bytes` does to `save` under a ceiling
/// of `max` bytes: what the window is told to write, and the save after it
/// unless the transfer ended. A chunk out of order ends it, and so does one
/// that would pass the ceiling; an abort is passed on as it came; the last
/// chunk ends it once written.
pub open spec fn chunk_step(save: Save, seq: u32, flag: Chunked, bytes: Seq<u8>, max: u64) -> (
    Option<Save>,
    FileWriteModel,
) {
    let abort = |why: Seq<u8>| FileWriteModel { token: save.token, flag: Chunked::Abort, bytes: why };
    if seq != save.seq {
        (None, abort(out_of_order()))
    } else if flag == Chunked::Abort {
        (None, abort(bytes))
    } else {
        let written = sat_add(save.written, bytes.len() as int);
        if written > max {
            (None, abort(too_much(max)))
        } else {
            (
                if flag == Chunked::Last {
                    None
                } else {
                    Some(
                        Save {
                            token: save.token,
                            seq: if save.seq == u32::MAX {
                                u32::MAX
                            } else {
                                (save.seq + 1) as u32
                            },
                            written,
                        },
                    )
                },
                FileWriteModel { token: save.token, flag, bytes },
            )
        }
    }
}

pub(crate) fn push_ascii(v: &mut Vec<u8>, s: &str)
    requires
        forall|k: int| 0 <= k < s@.len() ==> (s@[k] as u32) < 128,
    ensures
        final(v)@ == old(v)@ + ascii(s@),
{
    let cs = crate::text::chars_of(s);
    let mut k: usize = 0;
    while k < cs.len()
        invariant
            cs@ == s@,
            k <= cs@.len(),
            forall|j: int| 0 <= j < s@.len() ==> (s@[j] as u32) < 128,
            v@ == old(v)@ + ascii(cs@.take(k as int)),
        decreases cs.len() - k,
    {
        let c = cs[k];
        v.push(c as u8);
        k = k + 1;
        assert(v@ =~= old(v)@ + ascii(cs@.take(k as int)));
    }
    assert(cs@.take(k as int) =~= s@);
}

/// The decimal digits of `n`, as bytes.
pub(crate) fn push_digits(v: &mut Vec<u8>, n: u64)
    ensures
        final(v)@ == old(v)@ + ascii(dec(n as nat)),
{
    proof {
        crate::text::lemma_dec(n as nat);
    }
    let mut digits: Vec<char> = Vec::new();
    push_dec(&mut digits, n);
    let ghost before = v@;
    let mut k: usize = 0;
    while k < digits.len()
        invariant
            digits@ == dec(n as nat),
            crate::text::all_digits(dec(n as nat)),
            k <= digits@.len(),
            v@ == before + ascii(digits@.take(k as int)),
        decreases digits.len() - k,
    {
        let c = digits[k];
        assert(crate::text::is_digit_char(digits@[k as int]));
        v.push(c as u8);
        k = k + 1;
        assert(v@ =~= before + ascii(digits@.take(k as int)));
    }
    assert(digits@.take(k as int) =~= digits@);
}

/// The bytes of [`too_much`].
fn too_much_bytes(max: u64) -> (r: Vec<u8>)
    ensures
        r@ == too_much(max),
{
    proof {
        reveal_strlit("more than the ");
        reveal_strlit(" bytes one save may write");
    }
    let mut v: Vec<u8> = Vec::new();
    push_ascii(&mut v, "more than the ");
    push_digits(&mut v, max);
    push_ascii(&mut v, " bytes one save may write");
    assert(v@ =~= too_much(max));
    v
}

/// [`chunk_step`].
pub fn chunk(save: Save, seq: u32, flag: Chunked, bytes: Vec<u8>, max: u64) -> (r: (Option<Save>, FileWrite))
    ensures
        (r.0, r.1@) == chunk_step(save, seq, flag, bytes@, max),
{
    if seq != save.seq {
        let mut why: Vec<u8> = Vec::new();
        proof {
            reveal_strlit("the server sent the chunks out of order");
        }
        push_ascii(&mut why, "the server sent the chunks out of order");
        return (None, FileWrite { token: save.token, flag: Chunked::Abort, bytes: why });
    }
    match flag {
        Chunked::Abort => (None, FileWrite { token: save.token, flag: Chunked::Abort, bytes }),
        _ => {
            let n = bytes.len() as u64;
            let written = if n > u64::MAX - save.written {
                u64::MAX
            } else {
                save.written + n
            };
            if written > max {
                return (None, FileWrite { token: save.token, flag: Chunked::Abort, bytes: too_much_bytes(max) });
            }
            let next = match flag {
                Chunked::Last => None,
                _ => Some(
                    Save {
                        token: save.token,
                        seq: if save.seq == u32::MAX {
                            u32::MAX
                        } else {
                            save.seq + 1
                        },
                        written,
                    },
                ),
            };
            (next, FileWrite { token: save.token, flag, bytes })
        },
    }
}

/// A save never writes past its ceiling: a transfer that stays open has
/// handed over no more than `max` bytes, and the next chunk it expects is
/// the one after.
pub proof fn lemma_save_stays_under(save: Save, seq: u32, flag: Chunked, bytes: Seq<u8>, max: u64)
    requires
        save.seq < u32::MAX,
    ensures
        chunk_step(save, seq, flag, bytes, max).0 matches Some(s) ==> s.written <= max && s.seq
            == save.seq + 1 && s.token == save.token && s.written >= save.written,
{
}


/// Nothing past the ceiling is ever handed over: whatever the chunk's
/// flag, the last included, a write the window is told to make that is
/// not an abort keeps the save's bytes at or under `max`, is exactly the
/// chunk that came, in order; and a chunk in order that would pass the
/// ceiling ends the save with an abort instead.
pub proof fn lemma_nothing_past_the_ceiling(save: Save, seq: u32, flag: Chunked, bytes: Seq<u8>, max: u64)
    requires
        save.written + bytes.len() <= u64::MAX,
    ensures
        ({
            let (next, w) = chunk_step(save, seq, flag, bytes, max);
            &&& w.flag != Chunked::Abort ==> save.written + bytes.len() <= max && seq == save.seq
                && w.flag == flag && w.bytes == bytes && w.token == save.token
            &&& (seq == save.seq && flag != Chunked::Abort && save.written + bytes.len() > max)
                ==> w.flag == Chunked::Abort && next is None
            &&& next matches Some(s) ==> s.written == save.written + bytes.len() && s.written <= max
        }),
{
}

} // verus!
