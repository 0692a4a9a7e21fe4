//! Reading a tag: the seam between the window and whatever the platform
//! has, and nothing else. The driver owns the token, the one-tag rule and
//! the silence when nothing is read; a platform shell answers the one call
//! here.

use vstd::prelude::*;

use crate::driver::{NfcAsk, NfcRecord};

verus! {

/// Start a scan. `true` when a reader took it and will answer.
///
/// This build has no reader, so the answer is `false`: the caller ends the
/// scan at once, which is the same answer a person cancelling gives and
/// reports nothing to the application.
pub fn start(ask: &NfcAsk) -> (taken: bool)
    ensures
        !taken,
{
    let _ = ask;
    false
}

/// What a shell hands back when a reader read something: `kind` is
/// `text`, `uri`, `mime:…` or `raw`, and `payload` is what that kind means.
pub fn record(kind: &str, payload: &str) -> (r: NfcRecord)
    ensures
        r.kind@ == kind@,
        r.payload@ == payload@,
{
    NfcRecord { kind: kind.to_owned(), payload: payload.to_owned() }
}

} // verus!
