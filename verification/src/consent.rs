//! The permission sheet: what a person is asked before a session opens,
//! and what their clicks on it mean.
//!
//! A client grants the intersection of what a manifest asks for with what
//! the person allowed. The sheet shows one row per capability asked for,
//! in bit order, every one ticked to begin with. A click on a row unticks
//! or ticks it; "Allow" answers with what is ticked, and the close button
//! leaves things as they were: it answers with what was granted already.

use vstd::prelude::*;

use crate::text::{from_chars, push_str, same_str};

verus! {

/// The node id of the first row; the rows run upward from here.
pub const CONSENT_ROW: u32 = 100;
/// Added to a row's or a button's id for the label inside it.
pub const CONSENT_TEXT: u32 = 1000;
/// Added to a row's id for the mark beside its label.
pub const CONSENT_MARK: u32 = 2000;
/// The button that answers with what is ticked.
pub const CONSENT_ALLOW: u32 = 10;
/// The button that closes the sheet and changes nothing.
pub const CONSENT_DENY: u32 = 11;

/// The set bits of `x` below bit `i`, lowest first.
pub open spec fn bits_below(x: u32, i: u32) -> Seq<u32>
    decreases i,
{
    if i == 0 || i > 32 {
        Seq::empty()
    } else {
        let b = 1u32 << ((i - 1) as u32);
        bits_below(x, (i - 1) as u32) + if x & b != 0 {
            seq![b]
        } else {
            Seq::empty()
        }
    }
}

/// The set bits of `x`, lowest first: the rows of a sheet asking for `x`.
pub open spec fn set_bits(x: u32) -> Seq<u32> {
    bits_below(x, 32)
}

proof fn lemma_bit_in(x: u32, i: u32)
    requires
        i < 32,
        x & (1u32 << i) != 0,
    ensures
        (1u32 << i) & !x == 0,
        (1u32 << i) != 0,
{
    assert((1u32 << i) & !x == 0) by (bit_vector)
        requires
            i < 32,
            x & (1u32 << i) != 0,
    ;
    assert((1u32 << i) != 0) by (bit_vector)
        requires
            i < 32,
    ;
}

proof fn lemma_bits_below_in(x: u32, i: u32)
    requires
        i <= 32,
    ensures
        forall|k: int| 0 <= k < bits_below(x, i).len() ==> #[trigger] bits_below(x, i)[k] & !x == 0,
    decreases i,
{
    if i > 0 {
        lemma_bits_below_in(x, (i - 1) as u32);
        let b = 1u32 << ((i - 1) as u32);
        if x & b != 0 {
            lemma_bit_in(x, (i - 1) as u32);
        }
        let s = bits_below(x, i);
        let p = bits_below(x, (i - 1) as u32);
        assert forall|k: int| 0 <= k < s.len() implies #[trigger] s[k] & !x == 0 by {
            if k < p.len() {
                assert(s[k] == p[k]);
            }
        }
    }
}

/// The rows of a sheet asking for `x`, each a bit of `x`.
fn set_bits_of(x: u32) -> (r: Vec<u32>)
    ensures
        r@ == set_bits(x),
{
    let mut r: Vec<u32> = Vec::new();
    let mut i: u32 = 0;
    while i < 32
        invariant
            i <= 32,
            r@ == bits_below(x, i),
        decreases 32 - i,
    {
        let b = 1u32 << i;
        if x & b != 0 {
            r.push(b);
        }
        i = i + 1;
        assert(r@ =~= bits_below(x, i));
    }
    r
}

/// A sheet that is up: what was asked, what is still ticked, and what the
/// manifest calls the application.
pub struct Consent {
    asked: u32,
    chosen: u32,
    name: String,
}

/// What asking comes to: an answer at once, when nothing the client knows
/// was asked for, or a sheet to show.
pub enum Asking {
    Answered(u32),
    Sheet(Consent),
}

/// What a click on the sheet did.
#[derive(Debug, Clone, Copy, PartialEq, Eq, Structural)]
pub enum Clicked {
    /// The sheet is done, and this is what it granted.
    Answer(u32),
    /// A row was ticked or unticked; the sheet stays.
    Toggled,
    /// The click was on nothing of the sheet's.
    NotOurs,
}

impl Consent {
    /// Nothing is ever ticked that was not asked for.
    #[verifier::type_invariant]
    spec fn within(self) -> bool {
        self.chosen & !self.asked == 0
    }

    pub closed spec fn spec_asked(self) -> u32 {
        self.asked
    }

    pub closed spec fn spec_chosen(self) -> u32 {
        self.chosen
    }

    pub closed spec fn spec_name(self) -> Seq<char> {
        self.name@
    }

    /// What the manifest wants, of the capabilities in `all`.
    pub fn asked(&self) -> (r: u32)
        ensures
            r == self.spec_asked(),
    {
        self.asked
    }

    /// What is ticked.
    pub fn chosen(&self) -> (r: u32)
        ensures
            r == self.spec_chosen(),
            r & !self.spec_asked() == 0,
    {
        proof {
            use_type_invariant(self);
        }
        self.chosen
    }

    /// What the manifest calls the application.
    pub fn name(&self) -> (r: String)
        ensures
            r@ == self.spec_name(),
    {
        self.name.clone()
    }

    /// Ask for `asked`, of the capabilities in `all`. Only what the client
    /// knows is asked about, and everything asked is ticked to begin with;
    /// asking for none of it is answered at once, with nothing.
    pub fn ask(asked: u32, all: u32, name: &str) -> (r: Asking)
        ensures
            asked & all == 0 ==> r == Asking::Answered(0),
            asked & all != 0 ==> (r matches Asking::Sheet(c) && c.spec_asked() == asked & all
                && c.spec_chosen() == asked & all && c.spec_name() == name@),
    {
        let a = asked & all;
        if a == 0 {
            return Asking::Answered(0);
        }
        assert(a & !a == 0) by (bit_vector);
        Asking::Sheet(Consent { asked: a, chosen: a, name: name.to_owned() })
    }

    /// The rows, in the order the sheet shows them: each capability asked
    /// for, and whether it is ticked.
    pub fn rows(&self) -> (r: Vec<(u32, bool)>)
        ensures
            r@.len() == set_bits(self.spec_asked()).len(),
            forall|k: int|
                0 <= k < r@.len() ==> (#[trigger] r@[k]).0 == set_bits(self.spec_asked())[k]
                    && r@[k].1 == (self.spec_chosen() & set_bits(self.spec_asked())[k] != 0),
    {
        let bits = set_bits_of(self.asked);
        let mut r: Vec<(u32, bool)> = Vec::new();
        let mut k: usize = 0;
        while k < bits.len()
            invariant
                k <= bits@.len(),
                bits@ == set_bits(self.spec_asked()),
                r@.len() == k,
                forall|j: int|
                    0 <= j < k ==> (#[trigger] r@[j]).0 == bits@[j] && r@[j].1 == (self.spec_chosen()
                        & bits@[j] != 0),
            decreases bits.len() - k,
        {
            let b = bits[k];
            r.push((b, self.chosen & b != 0));
            k = k + 1;
        }
        r
    }

    /// The sheet's heading.
    pub fn heading(&self) -> (r: String)
        ensures
            r@ == (if self.spec_name().len() == 0 {
                "This application"@
            } else {
                self.spec_name()
            }) + " is asking for:"@,
    {
        let mut v: Vec<char> = Vec::new();
        if self.name.as_str().is_empty() {
            push_str(&mut v, "This application");
        } else {
            push_str(&mut v, self.name.as_str());
        }
        push_str(&mut v, " is asking for:");
        from_chars(v)
    }

    /// A click on node `id` while the sheet is up, with `granted` what the
    /// application holds already.
    ///
    /// "Allow" answers with what is ticked; the close button with what was
    /// granted of what is asked, so that closing takes nothing away. A row
    /// flips its own bit, and the sheet stays up. Anything else is not the
    /// sheet's, and changes nothing.
    pub fn click(&mut self, id: u32, granted: u32) -> (r: Clicked)
        ensures
            final(self).spec_asked() == old(self).spec_asked(),
            final(self).spec_name() == old(self).spec_name(),
            id == CONSENT_ALLOW ==> r == Clicked::Answer(old(self).spec_chosen()),
            id == CONSENT_DENY ==> r == Clicked::Answer(granted & old(self).spec_asked()),
            ({
                let rows = set_bits(old(self).spec_asked());
                id >= CONSENT_ROW && id - CONSENT_ROW < rows.len() ==> r == Clicked::Toggled
                    && final(self).spec_chosen() == old(self).spec_chosen() ^ rows[id
                    - CONSENT_ROW]
            }),
            r is Toggled || final(self).spec_chosen() == old(self).spec_chosen(),
            ({
                let rows = set_bits(old(self).spec_asked());
                id != CONSENT_ALLOW && id != CONSENT_DENY && !(id >= CONSENT_ROW && id
                    - CONSENT_ROW < rows.len()) ==> r == Clicked::NotOurs
            }),
            r matches Clicked::Answer(a) ==> a & !old(self).spec_asked() == 0,
    {
        proof {
            use_type_invariant(&*self);
        }
        if id == CONSENT_ALLOW {
            return Clicked::Answer(self.chosen);
        }
        if id == CONSENT_DENY {
            let a = self.asked;
            let keep = granted & a;
            assert(keep & !a == 0) by (bit_vector)
                requires
                    keep == granted & a,
            ;
            return Clicked::Answer(keep);
        }
        if id >= CONSENT_ROW {
            let nth = id - CONSENT_ROW;
            let bits = set_bits_of(self.asked);
            if (nth as usize) < bits.len() {
                let b = bits[nth as usize];
                proof {
                    lemma_bits_below_in(self.asked, 32);
                    assert(b & !self.asked == 0);
                }
                let now = self.chosen ^ b;
                let a = self.asked;
                let c = self.chosen;
                assert(now & !a == 0) by (bit_vector)
                    requires
                        now == c ^ b,
                        c & !a == 0,
                        b & !a == 0,
                ;
                self.chosen = now;
                return Clicked::Toggled;
            }
        }
        Clicked::NotOurs
    }
}

/// Ticking a row twice leaves it as it was.
pub proof fn lemma_two_clicks_undo(chosen: u32, bit: u32)
    ensures
        (chosen ^ bit) ^ bit == chosen,
{
    assert((chosen ^ bit) ^ bit == chosen) by (bit_vector);
}

/// What a capability lets an application do, said to the person who has
/// to decide about it.
pub open spec fn words_for(name: Seq<char>) -> Seq<char> {
    if name == "camera"@ {
        "Take photographs with the camera"@
    } else if name == "microphone"@ {
        "Make recordings with the microphone"@
    } else if name == "clipboard.read"@ {
        "Read what you have copied"@
    } else if name == "clipboard.write"@ {
        "Put things on your clipboard"@
    } else if name == "notifications"@ {
        "Show you notifications"@
    } else if name == "location"@ {
        "Read roughly where you are"@
    } else if name == "fs.pick"@ {
        "Open files you choose or drop on it"@
    } else if name == "fs.save"@ {
        "Save files where you say"@
    } else if name == "nfc"@ {
        "Read a tag you hold against the machine"@
    } else if name == "scene"@ {
        "Draw with a graphics program of its own"@
    } else {
        "Something this build has no words for"@
    }
}

/// [`words_for`]: a row's label on the sheet.
pub fn cap_in_words(name: &str) -> (r: &'static str)
    ensures
        r@ == words_for(name@),
{
    if same_str(name, "camera") {
        "Take photographs with the camera"
    } else if same_str(name, "microphone") {
        "Make recordings with the microphone"
    } else if same_str(name, "clipboard.read") {
        "Read what you have copied"
    } else if same_str(name, "clipboard.write") {
        "Put things on your clipboard"
    } else if same_str(name, "notifications") {
        "Show you notifications"
    } else if same_str(name, "location") {
        "Read roughly where you are"
    } else if same_str(name, "fs.pick") {
        "Open files you choose or drop on it"
    } else if same_str(name, "fs.save") {
        "Save files where you say"
    } else if same_str(name, "nfc") {
        "Read a tag you hold against the machine"
    } else if same_str(name, "scene") {
        "Draw with a graphics program of its own"
    } else {
        "Something this build has no words for"
    }
}

} // verus!
