//! An upload in progress: the bytes of a picked file, cut into chunks the
//! server takes in order, up to the ceiling the node asked for.

use vstd::prelude::*;
use vstd::utf8::encode_utf8;

use crate::driver::Chunked;
use crate::save::{ascii, push_ascii, push_digits, sat_add};
use crate::text::dec;

verus! {

broadcast use vstd::string::group_string_axioms;

/// A file being sent for a node's `pick`.
#[derive(Debug, Clone, Copy, PartialEq, Eq, Structural)]
pub struct Upload {
    /// The node whose `pick` this answers.
    pub node: u32,
    /// The next chunk index to frame.
    pub seq: u32,
    /// Bytes framed so far.
    pub sent: u64,
    /// The ceiling the node asked for.
    pub max: u64,
}

/// One chunk of an upload, for the server.
#[derive(Debug, PartialEq, Eq)]
pub struct Transfer {
    pub id: u32,
    pub seq: u32,
    pub flag: Chunked,
    pub bytes: Vec<u8>,
}

pub struct TransferModel {
    pub id: u32,
    pub seq: u32,
    pub flag: Chunked,
    pub bytes: Seq<u8>,
}

impl View for Transfer {
    type V = TransferModel;

    open spec fn view(&self) -> TransferModel {
        TransferModel { id: self.id, seq: self.seq, flag: self.flag, bytes: self.bytes@ }
    }
}

pub open spec fn transfer_views(v: Seq<Transfer>) -> Seq<TransferModel> {
    v.map_values(|t: Transfer| t@)
}

/// `b` cut into pieces of `size` bytes, the last one shorter: always at
/// least one piece, an empty one for no bytes.
pub open spec fn pieces(b: Seq<u8>, size: nat) -> Seq<Seq<u8>>
    decreases b.len(),
{
    if size == 0 || b.len() <= size {
        seq![b]
    } else {
        seq![b.take(size as int)] + pieces(b.skip(size as int), size)
    }
}

/// `s + k`, or the most a `u32` holds.
pub open spec fn seq_after(s: u32, k: int) -> u32 {
    if s + k > u32::MAX {
        u32::MAX
    } else {
        (s + k) as u32
    }
}

/// The chunks of `bytes` for upload `id` from chunk `seq` on: in order,
/// numbered on, and the final one marked last when `last` says the file
/// ends with these bytes.
pub open spec fn framed(id: u32, seq: u32, bytes: Seq<u8>, size: nat, last: bool) -> Seq<TransferModel> {
    let ps = pieces(bytes, size);
    Seq::new(
        ps.len(),
        |i: int|
            TransferModel {
                id,
                seq: seq_after(seq, i),
                flag: if last && i == ps.len() - 1 {
                    Chunked::Last
                } else {
                    Chunked::More
                },
                bytes: ps[i],
            },
    )
}

/// Why an upload that would pass its ceiling ends.
pub open spec fn over(max: u64) -> Seq<u8> {
    ascii("more than the "@ + dec(max as nat) + " bytes this one accepts"@)
}

/// What the next bytes of upload `id` come to: the chunks for the server,
/// and the upload after them unless it ended. Bytes that would pass the
/// ceiling end it with one abort instead.
pub open spec fn sent_step(up: Upload, id: u32, bytes: Seq<u8>, last: bool, size: nat) -> (
    Option<Upload>,
    Seq<TransferModel>,
) {
    let total = sat_add(up.sent, bytes.len() as int);
    if total > up.max {
        (None, seq![TransferModel { id, seq: up.seq, flag: Chunked::Abort, bytes: over(up.max) }])
    } else {
        let n = pieces(bytes, size).len();
        (
            if last {
                None
            } else {
                Some(Upload { seq: seq_after(up.seq, n as int), sent: total, ..up })
            },
            framed(id, up.seq, bytes, size, last),
        )
    }
}

proof fn lemma_pieces(b: Seq<u8>, size: nat)
    requires
        size >= 1,
    ensures
        pieces(b, size).len() >= 1,
        pieces(b, size).len() == if b.len() <= size {
            1
        } else {
            1 + pieces(b.skip(size as int), size).len()
        },
    decreases b.len(),
{
    if b.len() > size {
        lemma_pieces(b.skip(size as int), size);
    }
}

/// The pieces, put back together, are the bytes, and none is longer than
/// `size`.
pub proof fn lemma_pieces_join(b: Seq<u8>, size: nat)
    requires
        size >= 1,
    ensures
        forall|i: int| 0 <= i < pieces(b, size).len() ==> (#[trigger] pieces(b, size)[i]).len() <= size,
        crate::transport::joined(pieces(b, size)) == b,
    decreases b.len(),
{
    if b.len() <= size {
        assert(pieces(b, size) =~= seq![b]);
        assert(seq![b].drop_last() =~= Seq::<Seq<u8>>::empty());
        assert(crate::transport::joined(Seq::<Seq<u8>>::empty()) =~= Seq::<u8>::empty());
        assert(seq![b].last() == b);
        assert(crate::transport::joined(seq![b]) =~= b);
    } else {
        let rest = b.skip(size as int);
        lemma_pieces_join(rest, size);
        lemma_pieces(rest, size);
        let ps = pieces(b, size);
        let qs = pieces(rest, size);
        assert(ps == seq![b.take(size as int)] + qs);
        lemma_joined_front(b.take(size as int), qs);
        assert(b.take(size as int) + rest =~= b);
        assert forall|i: int| 0 <= i < ps.len() implies (#[trigger] ps[i]).len() <= size by {
            if i > 0 {
                assert(ps[i] == qs[i - 1]);
            }
        }
    }
}

proof fn lemma_joined_front(x: Seq<u8>, qs: Seq<Seq<u8>>)
    ensures
        crate::transport::joined(seq![x] + qs) == x + crate::transport::joined(qs),
    decreases qs.len(),
{
    if qs.len() == 0 {
        assert(seq![x] + qs =~= seq![x]);
        assert(seq![x].drop_last() =~= Seq::<Seq<u8>>::empty());
        assert(crate::transport::joined(Seq::<Seq<u8>>::empty()) =~= Seq::<u8>::empty());
        assert(seq![x].last() == x);
        assert(crate::transport::joined(seq![x]) =~= x);
        assert(x + crate::transport::joined(qs) =~= x);
    } else {
        lemma_joined_front(x, qs.drop_last());
        assert((seq![x] + qs).drop_last() =~= seq![x] + qs.drop_last());
        assert((seq![x] + qs).last() == qs.last());
        assert(crate::transport::joined(seq![x] + qs) =~= x + crate::transport::joined(qs));
    }
}

fn over_bytes(max: u64) -> (r: Vec<u8>)
    ensures
        r@ == over(max),
{
    proof {
        reveal_strlit("more than the ");
        reveal_strlit(" bytes this one accepts");
    }
    let mut v: Vec<u8> = Vec::new();
    push_ascii(&mut v, "more than the ");
    push_digits(&mut v, max);
    push_ascii(&mut v, " bytes this one accepts");
    assert(v@ =~= over(max));
    v
}

/// [`sent_step`]: the next bytes of upload `id`, cut into chunks of at
/// most `size` bytes.
pub fn send(up: Upload, id: u32, bytes: &[u8], last: bool, size: usize) -> (r: (Option<Upload>, Vec<Transfer>))
    requires
        size >= 1,
    ensures
        (r.0, transfer_views(r.1@)) == sent_step(up, id, bytes@, last, size as nat),
{
    let n = bytes.len() as u64;
    let total = if n > u64::MAX - up.sent {
        u64::MAX
    } else {
        up.sent + n
    };
    if total > up.max {
        let mut out: Vec<Transfer> = Vec::new();
        out.push(Transfer { id, seq: up.seq, flag: Chunked::Abort, bytes: over_bytes(up.max) });
        assert(transfer_views(out@) =~= sent_step(up, id, bytes@, last, size as nat).1);
        return (None, out);
    }
    let ghost all = bytes@;
    let ghost ps = pieces(all, size as nat);
    proof {
        lemma_pieces(all, size as nat);
    }
    let mut out: Vec<Transfer> = Vec::new();
    let mut seq = up.seq;
    let mut at: usize = 0;
    let ghost fr = framed(id, up.seq, all, size as nat, last);
    assert(all.skip(0) =~= all);
    assert(ps.skip(0) =~= ps);
    loop
        invariant_except_break
            pieces(all.skip(at as int), size as nat) == ps.skip(out@.len() as int),
            out@.len() < ps.len(),
        invariant
            size >= 1,
            at <= bytes@.len(),
            all == bytes@,
            ps == pieces(all, size as nat),
            fr == framed(id, up.seq, all, size as nat, last),
            fr.len() == ps.len(),
            out@.len() <= ps.len(),
            seq == seq_after(up.seq, out@.len() as int),
            forall|i: int| 0 <= i < out@.len() ==> (#[trigger] out@[i])@ == fr[i],
        ensures
            out@.len() == ps.len(),
            seq == seq_after(up.seq, out@.len() as int),
        decreases bytes@.len() - at,
    {
        let left = bytes.len() - at;
        let take = if left < size { left } else { size };
        let head = &bytes[at..at + take];
        let rest = left - take;
        let done = last && rest == 0;
        let ghost k = out@.len() as int;
        proof {
            let r = all.skip(at as int);
            lemma_pieces(r, size as nat);
            assert(ps.skip(k)[0] == ps[k]);
            if r.len() <= size {
                assert(pieces(r, size as nat) =~= seq![r]);
                assert(ps[k] == r);
                assert(head@ =~= r);
            } else {
                assert(ps[k] == r.take(size as int));
                assert(head@ =~= r.take(size as int));
            }
            assert(rest == 0 <==> k == ps.len() - 1) by {
                if r.len() > size {
                    lemma_pieces(r.skip(size as int), size as nat);
                    assert(ps.skip(k).len() >= 2);
                }
            }
        }
        let mut piece: Vec<u8> = Vec::new();
        piece.extend_from_slice(head);
        let ghost before = out@;
        out.push(Transfer { id, seq, flag: if done { Chunked::Last } else { Chunked::More }, bytes: piece });
        proof {
            assert(0 <= k < fr.len());
            assert(fr[k].bytes == ps[k]);
            assert(fr[k].seq == seq_after(up.seq, k));
            assert(fr[k].id == id);
            assert(out@[k].bytes@ == ps[k]);
            assert(out@[k].flag == fr[k].flag);
            assert(out@[k]@ == fr[k]);
            assert forall|i: int| 0 <= i < out@.len() implies (#[trigger] out@[i])@ == fr[i] by {
                if i < k {
                    assert(out@[i] == before[i]);
                }
            }
        }
        seq = if seq == 4294967295 { 4294967295 } else { seq + 1 };
        at = at + take;
        if rest == 0 {
            break;
        }
        proof {
            let r = all.skip((at - take) as int);
            assert(all.skip(at as int) =~= r.skip(size as int));
            assert(ps.skip(k + 1) =~= ps.skip(k).drop_first());
        }
    }
    assert(transfer_views(out@) =~= framed(id, up.seq, all, size as nat, last));
    if last {
        (None, out)
    } else {
        (Some(Upload { seq, sent: total, ..up }), out)
    }
}

/// Why the window could not read what was picked, as the server is told
/// it: the reason's bytes, no more than `limit` of them.
pub fn failed(id: u32, why: &str, limit: usize) -> (r: Transfer)
    ensures
        r@ == (TransferModel {
            id,
            seq: 0,
            flag: Chunked::Abort,
            bytes: if encode_utf8(why@).len() <= limit {
                encode_utf8(why@)
            } else {
                encode_utf8(why@).take(limit as int)
            },
        }),
{
    let b = why.as_bytes();
    let n = if b.len() <= limit { b.len() } else { limit };
    let mut bytes: Vec<u8> = Vec::new();
    bytes.extend_from_slice(&b[0..n]);
    assert(bytes@ =~= if encode_utf8(why@).len() <= limit {
        encode_utf8(why@)
    } else {
        encode_utf8(why@).take(limit as int)
    });
    Transfer { id, seq: 0, flag: Chunked::Abort, bytes }
}

/// Why a picked file larger than the node accepts is refused.
pub open spec fn too_big(size: u64, max: u64) -> Seq<u8> {
    ascii("file is "@ + dec(size as nat) + " bytes; this one accepts "@ + dec(max as nat))
}

/// A picked file of `size` bytes, given upload `id` for `node`'s `pick`
/// with a ceiling of `max`: an upload to feed, or, for a file larger than
/// the node accepts, the abort the server is told at once.
pub fn accept_pick(id: u32, node: u32, size: u64, max: u64) -> (r: Result<Upload, Transfer>)
    ensures
        size > max ==> (r matches Err(t) && t@ == (TransferModel {
            id,
            seq: 0,
            flag: Chunked::Abort,
            bytes: too_big(size, max),
        })),
        size <= max ==> r == Ok::<Upload, Transfer>(Upload { node, seq: 0, sent: 0, max }),
{
    if size > max {
        proof {
            reveal_strlit("file is ");
            reveal_strlit(" bytes; this one accepts ");
        }
        let mut v: Vec<u8> = Vec::new();
        push_ascii(&mut v, "file is ");
        push_digits(&mut v, size);
        push_ascii(&mut v, " bytes; this one accepts ");
        push_digits(&mut v, max);
        assert(v@ =~= too_big(size, max));
        Err(Transfer { id, seq: 0, flag: Chunked::Abort, bytes: v })
    } else {
        Ok(Upload { node, seq: 0, sent: 0, max })
    }
}


/// An upload's chunks are numbered on from where it stood, one each, and
/// the upload that stays open goes on one past the last of them (the count
/// held at the most a `u32` holds): the next call never numbers a chunk
/// again. It has then framed every byte so far, and is still the same
/// node's under the same ceiling.
pub proof fn lemma_send_numbers_on(up: Upload, id: u32, bytes: Seq<u8>, last: bool, size: nat)
    requires
        size >= 1,
    ensures
        ({
            let (next, fs) = sent_step(up, id, bytes, last, size);
            &&& fs.len() >= 1
            &&& forall|i: int|
                0 <= i < fs.len() ==> (#[trigger] fs[i]).seq == (if up.seq + i <= u32::MAX {
                    up.seq + i
                } else {
                    u32::MAX as int
                })
            &&& next matches Some(n) ==> {
                &&& n.seq == (if up.seq + fs.len() <= u32::MAX {
                    up.seq + fs.len()
                } else {
                    u32::MAX as int
                })
                &&& (fs.last().seq < u32::MAX ==> n.seq == fs.last().seq + 1)
                &&& n.sent <= n.max
                &&& (up.sent + bytes.len() <= u64::MAX ==> n.sent == up.sent + bytes.len())
                &&& n.node == up.node && n.max == up.max
            }
        }),
{
    lemma_pieces(bytes, size);
    let (next, fs) = sent_step(up, id, bytes, last, size);
    if sat_add(up.sent, bytes.len() as int) <= up.max {
        assert(fs == framed(id, up.seq, bytes, size, last));
        assert(fs.len() == pieces(bytes, size).len());
        assert(fs.last() == fs[fs.len() - 1]);
    }
}

} // verus!
