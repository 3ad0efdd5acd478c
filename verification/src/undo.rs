//! Edits that can be undone and redone.

use vstd::prelude::*;
use vstd::utf8::encode_utf8;
use ropey::Rope;
use crate::text::{rope_text, rope_insert, rope_remove, rope_fits, lemma_chars_le_bytes};

verus! {

/// An edit of the text: `content` inserted at, or deleted from, char index `idx`.
pub enum Action {
    Insert { idx: usize, content: String },
    Delete { idx: usize, content: String },
}

/// What an edit holds: the kind of edit, its index and its content.
pub enum ActionView {
    Insert { idx: usize, content: Seq<char> },
    Delete { idx: usize, content: Seq<char> },
}

impl View for Action {
    type V = ActionView;

    open spec fn view(&self) -> ActionView {
        match self {
            Action::Insert { idx, content } => ActionView::Insert { idx: *idx, content: content@ },
            Action::Delete { idx, content } => ActionView::Delete { idx: *idx, content: content@ },
        }
    }
}

impl ActionView {
    /// The text after taking the edit back (see `Action::undone`).
    pub open spec fn undone_text(self, t: Seq<char>) -> Seq<char> {
        match self {
            ActionView::Insert { idx, content } => t.take(idx as int) + t.skip(idx + byte_len(content)),
            ActionView::Delete { idx, content } => t.take(idx as int) + content + t.skip(idx as int),
        }
    }
}

/// The views of a stack of edits.
pub open spec fn actions_view(v: Seq<Action>) -> Seq<ActionView> {
    v.map_values(|a: Action| a@)
}

/// The UTF-8 length of a string of chars (what `str::len` answers).
pub open spec fn byte_len(s: Seq<char>) -> int {
    encode_utf8(s).len() as int
}

impl Action {
    pub open spec fn idx(self) -> int {
        match self {
            Action::Insert { idx, .. } => idx as int,
            Action::Delete { idx, .. } => idx as int,
        }
    }

    pub open spec fn content(self) -> Seq<char> {
        match self {
            Action::Insert { content, .. } => content@,
            Action::Delete { content, .. } => content@,
        }
    }

    /// The content's UTF-8 length fits in `usize`.
    pub open spec fn fits(self) -> bool {
        byte_len(self.content()) <= usize::MAX
    }

    /// The content is made of one-byte chars, so its byte length is its char length.
    pub open spec fn is_ascii_content(self) -> bool {
        byte_len(self.content()) == self.content().len()
    }

    /// Whether the edit can be carried out on `t` (the index and the deleted
    /// range, measured in bytes of the content, lie within `t`).
    pub open spec fn can_execute(self, t: Seq<char>) -> bool {
        match self {
            Action::Insert { .. } => self.idx() <= t.len(),
            Action::Delete { .. } => self.idx() + byte_len(self.content()) <= t.len(),
        }
    }

    /// Whether the edit can be taken back on `t`.
    pub open spec fn can_undo(self, t: Seq<char>) -> bool {
        match self {
            Action::Insert { .. } => self.idx() + byte_len(self.content()) <= t.len(),
            Action::Delete { .. } => self.idx() <= t.len(),
        }
    }

    /// The text after the edit: the content inserted at `idx`, or as many
    /// chars as the content has bytes removed from `idx` on.
    pub open spec fn executed(self, t: Seq<char>) -> Seq<char> {
        match self {
            Action::Insert { .. } => t.take(self.idx()) + self.content() + t.skip(self.idx()),
            Action::Delete { .. } => t.take(self.idx()) + t.skip(self.idx() + byte_len(self.content())),
        }
    }

    /// The text after taking the edit back: for an insertion as many chars as
    /// the content has bytes removed from `idx` on, for a deletion the content
    /// inserted again at `idx`.
    pub open spec fn undone(self, t: Seq<char>) -> Seq<char> {
        match self {
            Action::Insert { .. } => t.take(self.idx()) + t.skip(self.idx() + byte_len(self.content())),
            Action::Delete { .. } => t.take(self.idx()) + self.content() + t.skip(self.idx()),
        }
    }

    /// Carries out the edit on `rope` and answers the content's length in bytes.
    pub fn execute(&self, rope: &mut Rope) -> (r: usize)
        requires
            self.fits(),
            self.can_execute(rope_text(*old(rope))),
            rope_fits(rope_text(*old(rope))),
        ensures
            rope_text(*final(rope)) == self.executed(rope_text(*old(rope))),
            rope_fits(rope_text(*final(rope))),
            r == byte_len(self.content()),
    {
        proof {
            lemma_chars_le_bytes(rope_text(*rope));
        }
        match self {
            Action::Insert { idx, content } => {
                rope_insert(rope, *idx, content.as_str());
                return content.as_str().len();
            },
            Action::Delete { idx, content } => {
                let end_idx = idx + content.as_str().len();
                rope_remove(rope, *idx, end_idx);
                return content.as_str().len();
            },
        }
    }

    /// Takes the edit back on `rope` and answers the content's length in
    /// bytes (one less, but not below 0, for an insertion).
    pub fn undo(&self, rope: &mut Rope) -> (r: usize)
        requires
            self.fits(),
            self.can_undo(rope_text(*old(rope))),
            rope_fits(rope_text(*old(rope))),
        ensures
            rope_text(*final(rope)) == self.undone(rope_text(*old(rope))),
            rope_fits(rope_text(*final(rope))),
            r == match self {
                Action::Insert { .. } => if byte_len(self.content()) >= 1 {
                    byte_len(self.content()) - 1
                } else {
                    0
                },
                Action::Delete { .. } => byte_len(self.content()),
            },
    {
        proof {
            lemma_chars_le_bytes(rope_text(*rope));
        }
        match self {
            Action::Insert { idx, content } => {
                let end_idx = idx + content.as_str().len();
                rope_remove(rope, *idx, end_idx);
                return content.as_str().len().saturating_sub(1);
            },
            Action::Delete { idx, content } => {
                rope_insert(rope, *idx, content.as_str());
                return content.as_str().len();
            },
        }
    }
}

/// Undoing an edit right after carrying it out gives the text back, when the
/// content is made of one-byte chars and, for a deletion, is what the text
/// held at `idx`.
pub proof fn lemma_undo_after_execute(a: Action, t: Seq<char>)
    requires
        a.can_execute(t),
        a.is_ascii_content(),
        a is Delete ==> t.subrange(a.idx(), a.idx() + a.content().len()) == a.content(),
    ensures
        a.can_undo(a.executed(t)),
        a.undone(a.executed(t)) == t,
{
    let i = a.idx();
    let n = a.content().len() as int;
    match a {
        Action::Insert { .. } => {
            let e = a.executed(t);
            assert(e.take(i) =~= t.take(i));
            assert(e.skip(i + n) =~= t.skip(i));
            assert(t =~= t.take(i) + t.skip(i));
        },
        Action::Delete { .. } => {
            let e = a.executed(t);
            assert(e.take(i) =~= t.take(i));
            assert(e.skip(i) =~= t.skip(i + n));
            assert(t =~= t.take(i) + t.subrange(i, i + n) + t.skip(i + n));
        },
    }
}

/// Redoing an edit right after undoing it gives the text back, when the
/// content is made of one-byte chars and, for an insertion, is what the text
/// held at `idx`.
pub proof fn lemma_execute_after_undo(a: Action, t: Seq<char>)
    requires
        a.can_undo(t),
        a.is_ascii_content(),
        a is Insert ==> t.subrange(a.idx(), a.idx() + a.content().len()) == a.content(),
    ensures
        a.can_execute(a.undone(t)),
        a.executed(a.undone(t)) == t,
{
    let i = a.idx();
    let n = a.content().len() as int;
    match a {
        Action::Insert { .. } => {
            let u = a.undone(t);
            assert(u.take(i) =~= t.take(i));
            assert(u.skip(i) =~= t.skip(i + n));
            assert(t =~= t.take(i) + t.subrange(i, i + n) + t.skip(i + n));
        },
        Action::Delete { .. } => {
            let u = a.undone(t);
            assert(u.take(i) =~= t.take(i));
            assert(u.skip(i + n) =~= t.skip(i));
            assert(t =~= t.take(i) + t.skip(i));
        },
    }
}

} // verus!
