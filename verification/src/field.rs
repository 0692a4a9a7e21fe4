//! A text field's local edit: its value, the caret and the selection's
//! other end, both byte offsets into the value, and what the editing keys
//! do to them.
//!
//! The client edits a field itself and tells the server the value it
//! landed on; these are the keys it answers, and a key it has nothing to
//! do with is handed on rather than swallowed.

use vstd::prelude::*;
use vstd::utf8::*;

use crate::edit::{
    at_char, boundary, layout, lemma_at_char, lemma_boundary, lemma_encode_concat, lemma_offset_ends, line_bounds,
    line_end, line_start, locate, next_at, next_char, offset, prev_at, prev_char, skip_back,
    skip_on, word_left, word_right,
};
use crate::text::{chars_of, from_chars, same_str, string_of};

verus! {

broadcast use vstd::string::group_string_axioms;

/// A field being edited.
#[derive(Debug, Clone, PartialEq, Eq)]
pub struct Edit {
    /// What is in the field now.
    pub value: String,
    /// Where the caret is.
    pub caret: usize,
    /// The other end of the selection; the caret's own place when nothing
    /// is selected.
    pub anchor: usize,
}

/// An edit as values.
pub struct EditModel {
    pub value: Seq<char>,
    pub caret: int,
    pub anchor: int,
}

impl View for Edit {
    type V = EditModel;

    open spec fn view(&self) -> EditModel {
        EditModel { value: self.value@, caret: self.caret as int, anchor: self.anchor as int }
    }
}

/// The value's length in bytes.
pub open spec fn size(v: Seq<char>) -> int {
    encode_utf8(v).len() as int
}

/// Both ends of the selection on a character's first byte or at the end.
pub open spec fn wf(m: EditModel) -> bool {
    boundary(m.value, m.caret) && boundary(m.value, m.anchor)
}

/// The selection's start.
pub open spec fn lo(m: EditModel) -> int {
    if m.caret <= m.anchor {
        m.caret
    } else {
        m.anchor
    }
}

/// The selection's end.
pub open spec fn hi(m: EditModel) -> int {
    if m.caret <= m.anchor {
        m.anchor
    } else {
        m.caret
    }
}

/// `v` with the bytes from `a` to `b` replaced by `t`.
pub open spec fn spliced(v: Seq<char>, a: int, b: int, t: Seq<char>) -> Seq<char> {
    v.take(at_char(v, a)) + t + v.skip(at_char(v, b))
}

/// `t` in place of the selection, the caret after it.
pub open spec fn inserted(m: EditModel, t: Seq<char>) -> EditModel {
    let c = lo(m) + encode_utf8(t).len();
    EditModel { value: spliced(m.value, lo(m), hi(m), t), caret: c, anchor: c }
}

/// What a delete takes: the selection, or else the character after the
/// caret (`forward`) or before it.
pub open spec fn doomed(m: EditModel, forward: bool) -> (int, int) {
    if lo(m) < hi(m) {
        (lo(m), hi(m))
    } else if forward {
        (m.caret, next_at(m.value, m.caret))
    } else {
        (prev_at(m.value, m.caret), m.caret)
    }
}

/// The edit with [`doomed`] gone and the caret where it began.
pub open spec fn deleted(m: EditModel, forward: bool) -> EditModel {
    let (a, b) = doomed(m, forward);
    EditModel { value: spliced(m.value, a, b, Seq::empty()), caret: a, anchor: a }
}

/// The caret moved to `at` (held to the end), the selection kept or
/// collapsed.
pub open spec fn placed(m: EditModel, at: int, extend: bool) -> EditModel {
    let c = if at < size(m.value) {
        at
    } else {
        size(m.value)
    };
    EditModel { value: m.value, caret: c, anchor: if extend { m.anchor } else { c } }
}

/// Where a word-wise move to the left lands.
pub open spec fn word_left_at(v: Seq<char>, b: int) -> int {
    offset(v, skip_back(v, skip_back(v, at_char(v, b), true), false))
}

/// Where a word-wise move to the right lands.
pub open spec fn word_right_at(v: Seq<char>, b: int) -> int {
    offset(v, skip_on(v, skip_on(v, at_char(v, b), false), true))
}

/// Whether `key` is one of two names for a key.
pub open spec fn named(key: Seq<char>, a: Seq<char>, b: Seq<char>) -> bool {
    key == a || key == b
}

/// What an editing key does to the field, or `None` for a key the field
/// has nothing to do with.
pub open spec fn stepped(m: EditModel, key: Seq<char>, shift: bool, ctrl: bool, multiline: bool) -> Option<
    EditModel,
> {
    let v = m.value;
    if key == "Backspace"@ {
        Some(deleted(m, false))
    } else if key == "Delete"@ {
        Some(deleted(m, true))
    } else if key == "ArrowLeft"@ {
        Some(
            placed(
                m,
                if ctrl {
                    word_left_at(v, m.caret)
                } else if !shift && lo(m) < hi(m) {
                    lo(m)
                } else {
                    prev_at(v, m.caret)
                },
                shift,
            ),
        )
    } else if key == "ArrowRight"@ {
        Some(
            placed(
                m,
                if ctrl {
                    word_right_at(v, m.caret)
                } else if !shift && lo(m) < hi(m) {
                    hi(m)
                } else {
                    next_at(v, m.caret)
                },
                shift,
            ),
        )
    } else if key == "Home"@ {
        Some(
            placed(
                m,
                if ctrl {
                    0
                } else {
                    offset(v, line_start(v, at_char(v, m.caret)))
                },
                shift,
            ),
        )
    } else if key == "End"@ {
        Some(
            placed(
                m,
                if ctrl {
                    size(v)
                } else {
                    offset(v, line_end(v, at_char(v, m.caret)))
                },
                shift,
            ),
        )
    } else if named(key, "a"@, "A"@) && ctrl {
        Some(EditModel { value: v, caret: size(v), anchor: 0 })
    } else if named(key, "c"@, "C"@) && ctrl {
        Some(m)
    } else if named(key, "x"@, "X"@) && ctrl {
        Some(
            if lo(m) < hi(m) {
                deleted(m, false)
            } else {
                m
            },
        )
    } else if key == "Enter"@ && multiline {
        Some(inserted(m, "\n"@))
    } else {
        None
    }
}

/// The selected text.
pub open spec fn selected(m: EditModel) -> Seq<char> {
    m.value.subrange(at_char(m.value, lo(m)), at_char(m.value, hi(m)))
}

/// What a key copies: the selection, on copy or cut, unless the field is
/// secret.
pub open spec fn copied(m: EditModel, key: Seq<char>, ctrl: bool, secret: bool) -> Option<Seq<char>> {
    if ctrl && (named(key, "c"@, "C"@) || named(key, "x"@, "X"@)) && lo(m) < hi(m) && !secret {
        Some(selected(m))
    } else {
        None
    }
}

/// Whether a copy was refused because the field is secret.
pub open spec fn hidden(m: EditModel, key: Seq<char>, ctrl: bool, secret: bool) -> bool {
    ctrl && named(key, "c"@, "C"@) && lo(m) < hi(m) && secret
}

/// What a key came to.
#[derive(Debug, Clone, PartialEq, Eq)]
pub struct Keyed {
    /// The key was the field's: it moved something, copied something, or
    /// was a copy refused. A key that is not is handed on.
    pub ours: bool,
    /// What goes on the clipboard.
    pub copied: Option<String>,
    /// A copy out of a secret field, which the clipboard does not get.
    pub hid: bool,
}

/// The byte offsets of the character indices `i` and `j` of `s`, where
/// `s` has those.
proof fn lemma_splice_offsets(v: Seq<char>, i: int, j: int, t: Seq<char>)
    requires
        0 <= i <= j <= v.len(),
    ensures
        offset(v.take(i) + t + v.skip(j), i + t.len()) == offset(v, i) + encode_utf8(t).len(),
        offset(v.take(i) + t + v.skip(j), i) == offset(v, i),
{
    let w = v.take(i) + t + v.skip(j);
    assert(w.take(i + t.len()) =~= v.take(i) + t);
    lemma_encode_concat(v.take(i), t);
    assert(w.take(i) =~= v.take(i));
}

/// `v` with the characters from index `i` to `j` replaced by `t`, and the
/// byte offset of the end of `t` in it.
fn splice(v: &String, i: usize, j: usize, t: &str, Ghost(cs): Ghost<Seq<char>>) -> (r: (String, usize))
    requires
        cs == v@,
        i <= j <= cs.len(),
    ensures
        r.0@ == cs.take(i as int) + t@ + cs.skip(j as int),
        r.1 == offset(r.0@, i + t@.len()),
        boundary(r.0@, r.1 as int),
        boundary(r.0@, offset(r.0@, i as int)),
{
    let vs = chars_of(v.as_str());
    let ts = chars_of(t);
    let mut out: Vec<char> = Vec::new();
    let mut k: usize = 0;
    while k < i
        invariant
            vs@ == cs,
            i <= j <= cs.len(),
            k <= i,
            out@ == cs.take(k as int),
        decreases i - k,
    {
        out.push(vs[k]);
        k = k + 1;
        assert(out@ =~= cs.take(k as int));
    }
    let mut k: usize = 0;
    while k < ts.len()
        invariant
            vs@ == cs,
            i <= j <= cs.len(),
            k <= ts@.len(),
            out@ == cs.take(i as int) + ts@.take(k as int),
        decreases ts.len() - k,
    {
        out.push(ts[k]);
        k = k + 1;
        assert(out@ =~= cs.take(i as int) + ts@.take(k as int));
    }
    assert(ts@.take(k as int) =~= ts@);
    let mut k: usize = j;
    while k < vs.len()
        invariant
            vs@ == cs,
            i <= j <= k <= cs.len(),
            out@ == cs.take(i as int) + ts@ + cs.subrange(j as int, k as int),
        decreases vs.len() - k,
    {
        out.push(vs[k]);
        k = k + 1;
        assert(out@ =~= cs.take(i as int) + ts@ + cs.subrange(j as int, k as int));
    }
    assert(cs.subrange(j as int, k as int) =~= cs.skip(j as int));
    let s = from_chars(out);
    let (_, o) = layout(s.as_str());
    proof {
        lemma_at_char(s@, i + ts@.len());
        lemma_at_char(s@, i as int);
    }
    let at = o[i + ts.len()];
    (s, at)
}

impl Edit {
    /// Where the selection begins and ends.
    pub fn selection(&self) -> (r: (usize, usize))
        ensures
            r.0 == lo(self@),
            r.1 == hi(self@),
    {
        if self.caret <= self.anchor {
            (self.caret, self.anchor)
        } else {
            (self.anchor, self.caret)
        }
    }

    /// Replace the selection, or insert at the caret, with `text`.
    pub fn insert(&mut self, text: &str)
        requires
            wf(old(self)@),
        ensures
            final(self)@ == inserted(old(self)@, text@),
            wf(final(self)@),
    {
        let ghost m = self@;
        let (a, b) = self.selection();
        let (cs, o) = layout(self.value.as_str());
        let n = cs.len();
        proof {
            lemma_boundary(cs@, a as int);
            lemma_boundary(cs@, b as int);
            lemma_offset_ends(cs@);
        }
        let i = locate(&o, n, a, Ghost(cs@));
        let j = locate(&o, n, b, Ghost(cs@));
        proof {
            if i > j {
                crate::edit::lemma_offset_grows(cs@, j as int, i as int);
            }
            lemma_splice_offsets(cs@, i as int, j as int, text@);
        }
        let (v, at) = splice(&self.value, i, j, text, Ghost(cs@));
        self.value = v;
        self.caret = at;
        self.anchor = at;
        assert(self@.value =~= inserted(m, text@).value);
    }

    /// Delete the selection, or the character before the caret, or the
    /// one after it (`forward`).
    pub fn delete(&mut self, forward: bool)
        requires
            wf(old(self)@),
        ensures
            final(self)@ == deleted(old(self)@, forward),
            wf(final(self)@),
    {
        let ghost m = self@;
        proof {
            lemma_boundary(self.value@, self.caret as int);
            lemma_boundary(self.value@, self.anchor as int);
        }
        let (s0, s1) = self.selection();
        let (a, b) = if s0 < s1 {
            (s0, s1)
        } else if forward {
            (self.caret, next_char(self.value.as_str(), self.caret))
        } else {
            (prev_char(self.value.as_str(), self.caret), self.caret)
        };
        let (cs, o) = layout(self.value.as_str());
        let n = cs.len();
        proof {
            lemma_offset_ends(cs@);
            let k = at_char(cs@, self.caret as int);
            if !(s0 < s1) {
                lemma_at_char(cs@, if k > 0 { k - 1 } else { 0 });
                lemma_at_char(cs@, if k < cs@.len() { k + 1 } else { cs@.len() as int });
            }
        }
        proof {
            lemma_boundary(cs@, a as int);
            lemma_boundary(cs@, b as int);
        }
        let i = locate(&o, n, a, Ghost(cs@));
        let j = locate(&o, n, b, Ghost(cs@));
        proof {
            if i > j {
                crate::edit::lemma_offset_grows(cs@, j as int, i as int);
            }
            lemma_splice_offsets(cs@, i as int, j as int, Seq::empty());
        }
        let (v, _) = splice(&self.value, i, j, "", Ghost(cs@));
        proof {
            reveal_strlit("");
        }
        self.value = v;
        self.caret = a;
        self.anchor = a;
        assert(self@.value =~= deleted(m, forward).value);
    }

    /// Put the caret at `at`, held to the end; `extend` keeps the
    /// selection's other end where it was.
    pub fn place(&mut self, at: usize, extend: bool)
        requires
            wf(old(self)@),
            at >= size(old(self).value@) || boundary(old(self).value@, at as int),
        ensures
            final(self)@ == placed(old(self)@, at as int, extend),
            wf(final(self)@),
    {
        let len = self.value.as_str().as_bytes().len();
        proof {
            lemma_offset_ends(self.value@);
            lemma_at_char(self.value@, self.value@.len() as int);
        }
        self.caret = if at < len { at } else { len };
        if !extend {
            self.anchor = self.caret;
        }
    }

    /// The selected text.
    fn selected_text(&self) -> (r: String)
        requires
            wf(self@),
        ensures
            r@ == selected(self@),
    {
        let (a, b) = self.selection();
        let (cs, o) = layout(self.value.as_str());
        let n = cs.len();
        proof {
            lemma_offset_ends(cs@);
            lemma_boundary(cs@, a as int);
            lemma_boundary(cs@, b as int);
        }
        let i = locate(&o, n, a, Ghost(cs@));
        let j = locate(&o, n, b, Ghost(cs@));
        proof {
            if i > j {
                crate::edit::lemma_offset_grows(cs@, j as int, i as int);
            }
        }
        string_of(&cs, i, j)
    }

    /// An editing key, with `modifiers` as the window reports them (1 for
    /// shift; 2 or 8 for the key that makes a shortcut), in a field that
    /// is `multiline` or not and `secret` or not.
    pub fn key(&mut self, key: &str, modifiers: u32, multiline: bool, secret: bool) -> (r: Keyed)
        requires
            wf(old(self)@),
        ensures
            wf(final(self)@),
            ({
                let shift = modifiers & 1 != 0;
                let ctrl = modifiers & 10 != 0;
                let m = old(self)@;
                let n = final(self)@;
                let cp = copied(m, key@, ctrl, secret);
                let hid = hidden(m, key@, ctrl, secret);
                &&& match stepped(m, key@, shift, ctrl, multiline) {
                    Some(s) => n == s,
                    None => n == m,
                }
                &&& (match r.copied {
                    Some(c) => cp == Some(c@),
                    None => cp is None,
                })
                &&& r.hid == hid
                &&& r.ours == (stepped(m, key@, shift, ctrl, multiline) is Some && ((size(n.value),
                    n.caret, n.anchor) != (size(m.value), m.caret, m.anchor) || cp is Some || hid))
            }),
    {
        let shift = modifiers & 1 != 0;
        let ctrl = modifiers & 10 != 0;
        let ghost m = self@;
        let before_len = self.value.as_str().as_bytes().len();
        let before = (before_len, self.caret, self.anchor);
        let mut copied_text: Option<String> = None;
        let mut hid = false;
        let (lo_at, hi_at) = self.selection();
        proof {
            lemma_offset_ends(self.value@);
            lemma_at_char(self.value@, self.value@.len() as int);
            let k = at_char(self.value@, self.caret as int);
            lemma_at_char(self.value@, if k > 0 { k - 1 } else { 0 });
            lemma_at_char(self.value@, if k < self.value@.len() { k + 1 } else { self.value@.len() as int });
            lemma_at_char(self.value@, 0);
            crate::edit::lemma_offset_grows(self.value@, k, self.value@.len() as int);
            reveal_strlit("Backspace");
            reveal_strlit("Delete");
            reveal_strlit("ArrowLeft");
            reveal_strlit("ArrowRight");
            reveal_strlit("Home");
            reveal_strlit("End");
            reveal_strlit("a");
            reveal_strlit("A");
            reveal_strlit("c");
            reveal_strlit("C");
            reveal_strlit("x");
            reveal_strlit("X");
            reveal_strlit("Enter");
            assert("Backspace"@.len() == 9 && "Delete"@.len() == 6 && "ArrowLeft"@.len() == 9
                && "ArrowRight"@.len() == 10 && "Home"@.len() == 4 && "End"@.len() == 3
                && "Enter"@.len() == 5);
            assert("a"@.len() == 1 && "A"@.len() == 1 && "c"@.len() == 1 && "C"@.len() == 1
                && "x"@.len() == 1 && "X"@.len() == 1);
            assert("a"@[0] == 'a' && "A"@[0] == 'A' && "c"@[0] == 'c' && "C"@[0] == 'C' && "x"@[0]
                == 'x' && "X"@[0] == 'X');
        }
        if same_str(key, "Backspace") {
            self.delete(false);
        } else if same_str(key, "Delete") {
            self.delete(true);
        } else if same_str(key, "ArrowLeft") {
            let at = if ctrl {
                let w = word_left(self.value.as_str(), self.caret);
                proof {
                    let k = at_char(self.value@, self.caret as int);
                    crate::edit::lemma_skip_back(self.value@, k, true);
                    crate::edit::lemma_skip_back(self.value@, skip_back(self.value@, k, true), false);
                    lemma_at_char(self.value@, skip_back(self.value@, skip_back(self.value@, k, true), false));
                }
                w
            } else if !shift && lo_at < hi_at {
                lo_at
            } else {
                prev_char(self.value.as_str(), self.caret)
            };
            self.place(at, shift);
        } else if same_str(key, "ArrowRight") {
            let at = if ctrl {
                let w = word_right(self.value.as_str(), self.caret);
                proof {
                    let k = at_char(self.value@, self.caret as int);
                    crate::edit::lemma_skip_on(self.value@, k, false);
                    crate::edit::lemma_skip_on(self.value@, skip_on(self.value@, k, false), true);
                    lemma_at_char(self.value@, skip_on(self.value@, skip_on(self.value@, k, false), true));
                }
                w
            } else if !shift && lo_at < hi_at {
                hi_at
            } else {
                next_char(self.value.as_str(), self.caret)
            };
            self.place(at, shift);
        } else if same_str(key, "Home") {
            let at = if ctrl {
                0
            } else {
                let (s, _) = line_bounds(self.value.as_str(), self.caret);
                proof {
                    let k = at_char(self.value@, self.caret as int);
                    crate::edit::lemma_line_start(self.value@, k);
                    lemma_at_char(self.value@, line_start(self.value@, k));
                }
                s
            };
            self.place(at, shift);
        } else if same_str(key, "End") {
            let at = if ctrl {
                self.value.as_str().as_bytes().len()
            } else {
                let (_, e) = line_bounds(self.value.as_str(), self.caret);
                proof {
                    let k = at_char(self.value@, self.caret as int);
                    crate::edit::lemma_line_end(self.value@, k);
                    lemma_at_char(self.value@, line_end(self.value@, k));
                }
                e
            };
            self.place(at, shift);
        } else if (same_str(key, "a") || same_str(key, "A")) && ctrl {
            self.anchor = 0;
            self.caret = self.value.as_str().as_bytes().len();
        } else if (same_str(key, "c") || same_str(key, "C")) && ctrl {
            if lo_at < hi_at {
                if secret {
                    hid = true;
                } else {
                    copied_text = Some(self.selected_text());
                }
            }
        } else if (same_str(key, "x") || same_str(key, "X")) && ctrl {
            if lo_at < hi_at {
                if !secret {
                    copied_text = Some(self.selected_text());
                }
                self.delete(false);
            }
        } else if same_str(key, "Enter") && multiline {
            self.insert("\n");
        } else {
            return Keyed { ours: false, copied: None, hid: false };
        }
        let after_len = self.value.as_str().as_bytes().len();
        let moved = after_len != before.0 || self.caret != before.1 || self.anchor != before.2;
        let took = copied_text.is_some();
        Keyed { ours: moved || took || hid, copied: copied_text, hid }
    }
}

/// Typing a character and taking it back with Backspace leaves the field
/// as it was: the value, the caret and the selection.
pub proof fn lemma_type_then_backspace(m: EditModel, c: char)
    requires
        wf(m),
        m.caret == m.anchor,
    ensures
        deleted(inserted(m, seq![c]), false) == m,
{
    let v = m.value;
    let a = m.caret;
    lemma_boundary(v, a);
    let i = at_char(v, a);
    let t = seq![c];
    lemma_splice_offsets(v, i, i, t);
    let n = inserted(m, t);
    let w = n.value;
    assert(w == v.take(i) + t + v.skip(i));
    lemma_at_char(w, i + 1);
    lemma_at_char(w, i);
    assert(n.caret == offset(w, i + 1));
    assert(at_char(w, n.caret) == i + 1);
    assert(prev_at(w, n.caret) == offset(w, i));
    assert(offset(w, i) == a);
    assert(at_char(w, a) == i);
    let d = deleted(n, false);
    assert(w.take(i) + Seq::<char>::empty() + w.skip(i + 1) =~= v);
}

} // verus!
