//! A first render fetched over HTTPS, with no session behind it: the body
//! split into frames, held to its promised shape, and named by the hash of
//! its tree.
//!
//! Fetching the body and finding where each frame ends are the caller's.
//! The shape and the name are here.

use vstd::prelude::*;

use crate::manifest::{has_prefix, starts};
use crate::text::{chars_of, dec, from_chars, push_dec, push_str, same_str};

verus! {

/// The kind byte of a `Welcome` frame.
pub const WELCOME: u8 = 0x02;

/// The kind byte of a `Batch` frame.
pub const BATCH: u8 = 0x03;

/// A first render, as it is handed on.
#[derive(Debug, PartialEq, Eq)]
pub struct Rendered {
    /// BLAKE3 of the `Batch` frames: the identity of the tree, computed
    /// here and never taken from a header.
    pub tree: [u8; 32],
    /// The `ETag` verbatim, for a later `If-None-Match`.
    pub etag: Option<String>,
    /// The body split on frame boundaries, in order, still encoded.
    pub frames: Vec<Vec<u8>>,
}

/// Why a view could not be had.
#[derive(Debug, PartialEq, Eq)]
pub enum ViewError {
    /// A `404`: this component is not served that way, and the caller
    /// opens a socket.
    NotOffered,
    /// Anything else, with the reason, for the log.
    Refused(String),
}

pub open spec fn view_error_text(e: ViewError) -> Seq<char> {
    match e {
        ViewError::NotOffered => "this component is not served as a one-shot render"@,
        ViewError::Refused(why) => why@,
    }
}

impl ViewError {
    /// The sentence for the log.
    pub fn message(&self) -> (r: String)
        ensures
            r@ == view_error_text(*self),
    {
        let mut v: Vec<char> = Vec::new();
        match self {
            ViewError::NotOffered => push_str(&mut v, "this component is not served as a one-shot render"),
            ViewError::Refused(why) => push_str(&mut v, why.as_str()),
        }
        from_chars(v)
    }
}

/// BLAKE3 of `data`, the 32 bytes `blake3::hash` gives.
pub uninterp spec fn blake3_of(data: Seq<u8>) -> Seq<u8>;

/// `blake3::hash(data)`, as its 32 bytes.
#[verifier::external_body]
fn blake3_hash(data: &[u8]) -> (h: [u8; 32])
    ensures
        h@ == blake3_of(data@),
{
    *blake3::hash(data).as_bytes()
}

pub open spec fn frame_views(frames: Seq<Vec<u8>>) -> Seq<Seq<u8>> {
    frames.map_values(|f: Vec<u8>| f@)
}

/// The promised shape: a `Welcome`, then at least one batch, and nothing
/// else, judged by each frame's kind byte alone.
pub open spec fn well_shaped(frames: Seq<Seq<u8>>) -> bool {
    &&& frames.len() >= 2
    &&& frames[0].len() > 0 && frames[0][0] == WELCOME
    &&& forall|k: int| 1 <= k < frames.len() ==> (#[trigger] frames[k]).len() > 0 && frames[k][0] == BATCH
}

/// The batches, one after another.
pub open spec fn joined(frames: Seq<Seq<u8>>) -> Seq<u8>
    decreases frames.len(),
{
    if frames.len() == 0 {
        Seq::empty()
    } else {
        joined(frames.drop_last()) + frames.last()
    }
}

/// A view from the frames a body split into: refused unless it is a
/// `Welcome` followed by batches, and named by the hash of the batches as
/// one stream, which is what hashing them one after another computes.
pub fn view_of(frames: Vec<Vec<u8>>, etag: Option<String>) -> (r: Result<Rendered, ViewError>)
    ensures
        r is Ok <==> well_shaped(frame_views(frames@)),
        r matches Ok(v) ==> v.tree@ == blake3_of(joined(frame_views(frames@).skip(1)))
            && frame_views(v.frames@) == frame_views(frames@) && v.etag == etag,
        r matches Err(e) ==> e matches ViewError::Refused(why)
            && why@ == "not a Welcome followed by batches"@,
{
    let ghost fv = frame_views(frames@);
    let n = frames.len();
    if n < 2 {
        let mut v: Vec<char> = Vec::new();
        push_str(&mut v, "not a Welcome followed by batches");
        return Err(ViewError::Refused(from_chars(v)));
    }
    let mut ok = frames[0].len() > 0 && frames[0][0] == WELCOME;
    let mut all: Vec<u8> = Vec::new();
    let mut k: usize = 1;
    assert(fv.subrange(1, 1) =~= Seq::<Seq<u8>>::empty());
    while k < n
        invariant
            fv == frame_views(frames@),
            n == frames@.len(),
            1 <= k <= n,
            ok == (n >= 2 && fv[0].len() > 0 && fv[0][0] == WELCOME && forall|j: int|
                1 <= j < k ==> (#[trigger] fv[j]).len() > 0 && fv[j][0] == BATCH),
            all@ == joined(fv.subrange(1, k as int)),
        decreases n - k,
    {
        let f = &frames[k];
        assert(fv[k as int] == f@);
        if !(f.len() > 0 && f[0] == BATCH) {
            ok = false;
        }
        let ghost before = all@;
        let mut q: usize = 0;
        while q < f.len()
            invariant
                q <= f@.len(),
                all@ == before + f@.take(q as int),
            decreases f.len() - q,
        {
            all.push(f[q]);
            q = q + 1;
            assert(all@ =~= before + f@.take(q as int));
        }
        assert(f@.take(q as int) =~= f@);
        assert(fv.subrange(1, k + 1).drop_last() =~= fv.subrange(1, k as int));
        k = k + 1;
    }
    if !ok {
        let mut v: Vec<char> = Vec::new();
        push_str(&mut v, "not a Welcome followed by batches");
        return Err(ViewError::Refused(from_chars(v)));
    }
    assert(fv.subrange(1, n as int) =~= fv.skip(1));
    let tree = blake3_hash(all.as_slice());
    Ok(Rendered { tree, etag, frames })
}


/// The media type this endpoint speaks, sent as `Accept` and required back.
pub const VIEW_MEDIA_TYPE: &'static str = "application/vnd.eui.frames";

/// What the GET for a view came back with.
pub enum Fetched {
    /// A `404`: the component is not served as a one-shot render.
    NotFound,
    /// Any other failure, in the words of whatever failed.
    Failed(String),
    /// An answer with a body: its media type when it named one, its bytes,
    /// and its `ETag`.
    Body { content_type: Option<String>, body: Vec<u8>, etag: Option<String> },
}

/// The refusal of a body that names another media type, or none.
pub open spec fn wrong_type_text(content_type: Option<String>) -> Seq<char> {
    "answered "@ + (match content_type {
        Some(t) => t@,
        None => "nothing"@,
    }) + " rather than "@ + VIEW_MEDIA_TYPE@
}

/// The refusal of a body longer than one render may be.
pub open spec fn too_long_text(len: nat) -> Seq<char> {
    dec(len) + " bytes is past the ceiling for one render"@
}

/// The refusal of a body of more frames than one render may have.
pub open spec fn too_many_text(max_frames: nat) -> Seq<char> {
    "more than "@ + dec(max_frames) + " frames"@
}

fn text_of(v: Vec<char>) -> (s: String)
    ensures
        s@ == v@,
{
    from_chars(v)
}

/// A fetched first render judged whole before a byte of it is handed on:
/// a `404` is the ordinary answer that this component is not served that
/// way; any other failure, a body of another media type, one longer than
/// `max_bytes`, one of more than `max_frames` frames, or one that does not
/// split into frames (`torn`, in the words of what split it) is refused;
/// and what is left must be a `Welcome` followed by batches.
///
/// `frames` is the body split on frame boundaries as far as it splits, in
/// order; `torn` says why it stopped short of the end, when it did. A body
/// that split to its end is its frames one after another, so the frames
/// handed on are exactly the body.
pub fn answer_view(
    fetched: Fetched,
    frames: Vec<Vec<u8>>,
    torn: Option<String>,
    max_bytes: usize,
    max_frames: usize,
) -> (r: Result<Rendered, ViewError>)
    requires
        match fetched {
            Fetched::Body { body, .. } => torn is None ==> joined(frame_views(frames@)) == body@,
            _ => true,
        },
    ensures
        match fetched {
            Fetched::NotFound => r == Err::<Rendered, ViewError>(ViewError::NotOffered),
            Fetched::Failed(why) => r matches Err(ViewError::Refused(w)) && w@ == why@,
            Fetched::Body { content_type, body, etag } => {
                if !(content_type matches Some(t) && t@ == VIEW_MEDIA_TYPE@) {
                    r matches Err(ViewError::Refused(w)) && w@ == wrong_type_text(content_type)
                } else if body@.len() > max_bytes {
                    r matches Err(ViewError::Refused(w)) && w@ == too_long_text(body@.len())
                } else if frames@.len() > max_frames {
                    r matches Err(ViewError::Refused(w)) && w@ == too_many_text(max_frames as nat)
                } else if torn is Some {
                    r matches Err(ViewError::Refused(w)) && w@ == torn->0@
                } else {
                    &&& r is Ok <==> well_shaped(frame_views(frames@))
                    &&& r matches Ok(v) ==> v.tree@ == blake3_of(joined(frame_views(frames@).skip(1)))
                        && frame_views(v.frames@) == frame_views(frames@) && v.etag == etag
                        && joined(frame_views(v.frames@)) == body@
                    &&& r matches Err(e) ==> e matches ViewError::Refused(why)
                        && why@ == "not a Welcome followed by batches"@
                }
            },
        },
{
    let (content_type, body, etag) = match fetched {
        Fetched::NotFound => return Err(ViewError::NotOffered),
        Fetched::Failed(why) => return Err(ViewError::Refused(why)),
        Fetched::Body { content_type, body, etag } => (content_type, body, etag),
    };
    let right = match &content_type {
        Some(t) => same_str(t.as_str(), VIEW_MEDIA_TYPE),
        None => false,
    };
    if !right {
        let mut v: Vec<char> = Vec::new();
        push_str(&mut v, "answered ");
        match &content_type {
            Some(t) => push_str(&mut v, t.as_str()),
            None => push_str(&mut v, "nothing"),
        }
        push_str(&mut v, " rather than ");
        push_str(&mut v, VIEW_MEDIA_TYPE);
        return Err(ViewError::Refused(text_of(v)));
    }
    if body.len() > max_bytes {
        let mut v: Vec<char> = Vec::new();
        push_dec(&mut v, body.len() as u64);
        push_str(&mut v, " bytes is past the ceiling for one render");
        return Err(ViewError::Refused(text_of(v)));
    }
    if frames.len() > max_frames {
        let mut v: Vec<char> = Vec::new();
        push_str(&mut v, "more than ");
        push_dec(&mut v, max_frames as u64);
        push_str(&mut v, " frames");
        return Err(ViewError::Refused(text_of(v)));
    }
    if let Some(why) = torn {
        return Err(ViewError::Refused(why));
    }
    view_of(frames, etag)
}


/// Why a session could not be had.
pub enum TransportError {
    /// The URL is not `wss://`, and the loopback exception did not apply.
    Insecure(String),
    /// The URL could not be parsed, or the socket could not be reached.
    Connect(String),
    /// The server answered the upgrade with an HTTP status rather than
    /// switching protocols: this address is not a session, and retrying it
    /// will not make it one.
    Refused(u16, String),
}

/// Whether a session at `url` may be opened: TLS only, that is `wss://`,
/// except plain `ws://` on loopback (`loopback`) when the server is this
/// process's own (`host_loopback`) or the person asked for it by name
/// (`asked`, `EUI_ALLOW_INSECURE_LOOPBACK=1`). One embedded session vouches
/// for itself and for no other.
pub open spec fn url_allowed(url: Seq<char>, loopback: bool, host_loopback: bool, asked: bool) -> bool {
    starts(url, "wss://"@) || (loopback && (host_loopback || asked))
}

/// [`url_allowed`], decided; a refusal names the address.
pub fn check_url(url: &str, loopback: bool, host_loopback: bool, asked: bool) -> (r: Result<(), TransportError>)
    ensures
        r is Ok <==> url_allowed(url@, loopback, host_loopback, asked),
        r matches Err(e) ==> e matches TransportError::Insecure(u) && u@ == url@,
{
    let cs = chars_of(url);
    if has_prefix(&cs, "wss://") {
        return Ok(());
    }
    if loopback && (host_loopback || asked) {
        Ok(())
    } else {
        Err(TransportError::Insecure(url.to_owned()))
    }
}

} // verus!
