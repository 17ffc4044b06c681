//! Editing actions on a text buffer.  The buffer is modelled as the
//! character sequence of a `String`; actions are either edits, which
//! change the text and dirty the document, or cursor motions, which do
//! neither.

use vstd::prelude::*;

use crate::text::{chars_of, string_of};

verus! {

/// One action delivered by the editor widget.
#[derive(Debug)]
pub enum EditorAction {
    /// Insert text at a character position (clamped to the end).
    Insert(usize, String),
    /// Remove the characters in `[at, at + count)` (clamped to the end).
    Delete(usize, usize),
    /// Move the cursor; not an edit.
    Click(usize),
    /// Select the whole buffer; not an edit.
    SelectAll,
}

/// Mathematical image of an editor action.
pub enum EditorActionView {
    Insert(usize, Seq<char>),
    Delete(usize, usize),
    Click(usize),
    SelectAll,
}

impl View for EditorAction {
    type V = EditorActionView;

    open spec fn view(&self) -> EditorActionView {
        match self {
            EditorAction::Insert(at, s) => EditorActionView::Insert(*at, s@),
            EditorAction::Delete(at, count) => EditorActionView::Delete(*at, *count),
            EditorAction::Click(at) => EditorActionView::Click(*at),
            EditorAction::SelectAll => EditorActionView::SelectAll,
        }
    }
}

impl Clone for EditorAction {
    fn clone(&self) -> (r: Self)
        ensures
            r@ == self@,
    {
        match self {
            EditorAction::Insert(at, s) => EditorAction::Insert(*at, s.clone()),
            EditorAction::Delete(at, count) => EditorAction::Delete(*at, *count),
            EditorAction::Click(at) => EditorAction::Click(*at),
            EditorAction::SelectAll => EditorAction::SelectAll,
        }
    }
}

/// True of the actions that change the text.
pub open spec fn spec_is_edit(a: EditorActionView) -> bool {
    match a {
        EditorActionView::Insert(_, _) => true,
        EditorActionView::Delete(_, _) => true,
        EditorActionView::Click(_) => false,
        EditorActionView::SelectAll => false,
    }
}

/// The smaller of two lengths.
pub open spec fn clamp_spec(at: int, len: int) -> int {
    if at <= len {
        at
    } else {
        len
    }
}

/// The text after one action: an insertion splices at the (clamped)
/// position, a removal drops the (clamped) range, a motion changes
/// nothing.
pub open spec fn spec_apply(a: EditorActionView, text: Seq<char>) -> Seq<char> {
    match a {
        EditorActionView::Insert(at, s) => {
            let p = clamp_spec(at as int, text.len() as int);
            text.take(p) + s + text.skip(p)
        },
        EditorActionView::Delete(at, count) => {
            let p = clamp_spec(at as int, text.len() as int);
            let q = clamp_spec(p + count, text.len() as int);
            text.take(p) + text.skip(q)
        },
        EditorActionView::Click(_) => text,
        EditorActionView::SelectAll => text,
    }
}

impl EditorAction {
    /// Whether this action is an edit.
    pub fn is_edit(&self) -> (r: bool)
        ensures
            r == spec_is_edit(self@),
    {
        match self {
            EditorAction::Insert(_, _) => true,
            EditorAction::Delete(_, _) => true,
            EditorAction::Click(_) => false,
            EditorAction::SelectAll => false,
        }
    }
}

/// The buffer text after one action.
pub fn apply_action(a: &EditorAction, text: &str) -> (r: String)
    ensures
        r@ == spec_apply(a@, text@),
{
    let chars = chars_of(text);
    let n = chars.len();
    match a {
        EditorAction::Insert(at, s) => {
            let p = if *at <= n {
                *at
            } else {
                n
            };
            let ins = chars_of(s.as_str());
            let mut out: Vec<char> = Vec::new();
            for i in 0..p
                invariant
                    p <= n,
                    n == chars@.len(),
                    chars@ == text@,
                    out@ == text@.take(i as int),
            {
                out.push(chars[i]);
                proof {
                    assert(out@ =~= text@.take(i + 1));
                }
            }
            for i in 0..ins.len()
                invariant
                    p <= n,
                    n == chars@.len(),
                    chars@ == text@,
                    ins@ == a@->Insert_1,
                    out@ == text@.take(p as int) + ins@.take(i as int),
            {
                out.push(ins[i]);
                proof {
                    assert(out@ =~= text@.take(p as int) + ins@.take(i + 1));
                }
            }
            let mut i = p;
            while i < n
                invariant
                    p <= i <= n,
                    n == chars@.len(),
                    chars@ == text@,
                    ins@ == a@->Insert_1,
                    out@ == text@.take(p as int) + ins@ + text@.subrange(p as int, i as int),
                decreases n - i,
            {
                out.push(chars[i]);
                proof {
                    assert(ins@.take(ins@.len() as int) =~= ins@);
                    assert(out@ =~= text@.take(p as int) + ins@ + text@.subrange(
                        p as int,
                        i + 1,
                    ));
                }
                i = i + 1;
            }
            proof {
                assert(text@.subrange(p as int, n as int) =~= text@.skip(p as int));
                assert(ins@.take(ins@.len() as int) =~= ins@);
                assert(out@ == spec_apply(a@, text@));
            }
            string_of(&out)
        },
        EditorAction::Delete(at, count) => {
            let p = if *at <= n {
                *at
            } else {
                n
            };
            let q = if *count <= n - p {
                p + *count
            } else {
                n
            };
            let mut out: Vec<char> = Vec::new();
            for i in 0..p
                invariant
                    p <= q <= n,
                    n == chars@.len(),
                    chars@ == text@,
                    out@ == text@.take(i as int),
            {
                out.push(chars[i]);
                proof {
                    assert(out@ =~= text@.take(i + 1));
                }
            }
            let mut i = q;
            while i < n
                invariant
                    p <= q <= i <= n,
                    n == chars@.len(),
                    chars@ == text@,
                    out@ == text@.take(p as int) + text@.subrange(q as int, i as int),
                decreases n - i,
            {
                out.push(chars[i]);
                proof {
                    assert(out@ =~= text@.take(p as int) + text@.subrange(q as int, i + 1));
                }
                i = i + 1;
            }
            proof {
                assert(out@ =~= text@.take(p as int) + text@.subrange(q as int, n as int));
                assert(text@.subrange(q as int, n as int) =~= text@.skip(q as int));
                assert(out@ == spec_apply(a@, text@));
            }
            string_of(&out)
        },
        EditorAction::Click(_) => text.to_owned(),
        EditorAction::SelectAll => text.to_owned(),
    }
}

} // verus!
