//! The text buffer: a `ropey::Rope`, seen as the sequence of its chars.
//!
//! Lines follow ropey's rules (default features, `unicode_lines`): a line
//! starts at the beginning of the text and right after every line break, and
//! a line break belongs to the line that it ends.

use vstd::prelude::*;
use ropey::{Rope, RopeSlice};
use vstd::utf8::encode_utf8;

verus! {

#[verifier::external_type_specification]
#[verifier::external_body]
pub struct ExRope(Rope);

#[verifier::external_type_specification]
#[verifier::external_body]
pub struct ExRopeSlice<'a>(RopeSlice<'a>);

/// The chars that a rope holds.
pub uninterp spec fn rope_text(r: Rope) -> Seq<char>;

/// The chars that a rope slice holds.
pub uninterp spec fn slice_text(s: RopeSlice) -> Seq<char>;

/// The chars that end a line on their own: LF, VT, FF, CR, NEL, LS and PS.
pub open spec fn is_break_char(c: char) -> bool {
    c == '\n' || c == '\u{0B}' || c == '\u{0C}' || c == '\r' || c == '\u{85}' || c == '\u{2028}'
        || c == '\u{2029}'
}

/// A line break ends at index `i`; a CR directly followed by LF is one break,
/// which ends at the LF.
pub open spec fn break_at(t: Seq<char>, i: int) -> bool {
    &&& 0 <= i < t.len()
    &&& is_break_char(t[i])
    &&& !(t[i] == '\r' && i + 1 < t.len() && t[i + 1] == '\n')
}

/// The number of line breaks that end before index `p`: the line of char `p`.
pub open spec fn breaks_before(t: Seq<char>, p: int) -> nat
    decreases p,
{
    if p <= 0 {
        0
    } else {
        breaks_before(t, p - 1) + if break_at(t, p - 1) {
            1nat
        } else {
            0nat
        }
    }
}

/// The number of lines of a text: one more than its line breaks.
pub open spec fn line_count(t: Seq<char>) -> nat {
    breaks_before(t, t.len() as int) + 1
}

/// The first index from `p` on at which `y` line breaks have ended, or the
/// end of the text.
pub open spec fn start_search(t: Seq<char>, y: int, p: int) -> int
    decreases t.len() - p,
{
    if p >= t.len() || breaks_before(t, p) >= y {
        p
    } else {
        start_search(t, y, p + 1)
    }
}

/// The index at which line `y` starts; the end of the text for `y == line_count(t)`.
pub open spec fn line_start(t: Seq<char>, y: int) -> int {
    start_search(t, y, 0)
}

/// The number of chars of line `y`, its line break included.
pub open spec fn line_len(t: Seq<char>, y: int) -> int {
    line_start(t, y + 1) - line_start(t, y)
}

/// The chars of line `y`, its line break included.
pub open spec fn line_text(t: Seq<char>, y: int) -> Seq<char> {
    t.subrange(line_start(t, y), line_start(t, y + 1))
}

pub proof fn lemma_breaks_step(t: Seq<char>, p: int, q: int)
    requires
        0 <= p <= q,
    ensures
        breaks_before(t, p) <= breaks_before(t, q) <= breaks_before(t, p) + (q - p),
    decreases q - p,
{
    if p < q {
        lemma_breaks_step(t, p, q - 1);
    }
}

proof fn lemma_start_search(t: Seq<char>, y: int, p: int)
    requires
        0 <= p <= t.len(),
    ensures
        p <= start_search(t, y, p) <= t.len(),
        forall|k: int| p <= k < start_search(t, y, p) ==> breaks_before(t, k) < y,
        start_search(t, y, p) == t.len() || breaks_before(t, start_search(t, y, p)) >= y,
    decreases t.len() - p,
{
    if !(p >= t.len() || breaks_before(t, p) >= y) {
        lemma_start_search(t, y, p + 1);
    }
}

/// Where line `y` starts: within the text, after `y` breaks (for an existing
/// line), and before every later position that has reached `y` breaks.
pub proof fn lemma_line_start(t: Seq<char>, y: int)
    requires
        0 <= y,
    ensures
        0 <= line_start(t, y) <= t.len(),
        forall|k: int| 0 <= k < line_start(t, y) ==> breaks_before(t, k) < y,
        y < line_count(t) ==> breaks_before(t, line_start(t, y)) == y,
        y >= line_count(t) ==> line_start(t, y) == t.len(),
        y == 0 ==> line_start(t, y) == 0,
{
    lemma_start_search(t, y, 0);
    let s = line_start(t, y);
    if y < line_count(t) {
        if s > 0 {
            lemma_breaks_step(t, s - 1, s);
        }
        if s == t.len() {
        }
    } else {
        if s < t.len() {
            lemma_breaks_step(t, s, t.len() as int);
        }
    }
}

/// Line starts grow with the line number.
pub proof fn lemma_line_start_mono(t: Seq<char>, y1: int, y2: int)
    requires
        0 <= y1 <= y2,
    ensures
        line_start(t, y1) <= line_start(t, y2),
{
    lemma_line_start(t, y1);
    lemma_line_start(t, y2);
    let s1 = line_start(t, y1);
    let s2 = line_start(t, y2);
    if s2 < s1 {
        assert(breaks_before(t, s2) < y1);
        if y2 < line_count(t) {
        } else {
        }
    }
}

/// The line of char `i` starts at or before `i`, and the next line starts after it.
pub proof fn lemma_char_line(t: Seq<char>, i: int)
    requires
        0 <= i <= t.len(),
    ensures
        breaks_before(t, i) < line_count(t),
        line_start(t, breaks_before(t, i) as int) <= i,
        i < t.len() ==> i < line_start(t, breaks_before(t, i) as int + 1),
{
    let y = breaks_before(t, i) as int;
    lemma_breaks_step(t, i, t.len() as int);
    lemma_line_start(t, y);
    lemma_line_start(t, y + 1);
    if i < line_start(t, y) {
        assert(breaks_before(t, i) < y);
    }
    if i < t.len() && line_start(t, y + 1) <= i {
        let s = line_start(t, y + 1);
        if y + 1 < line_count(t) {
            lemma_breaks_step(t, s, i);
        } else {
            lemma_breaks_step(t, i, t.len() as int);
        }
    }
}

/// Bounds on a line: it lies within the text.
pub proof fn lemma_line_bounds(t: Seq<char>, y: int)
    requires
        0 <= y,
    ensures
        0 <= line_start(t, y) <= line_start(t, y + 1) <= t.len(),
        line_len(t, y) >= 0,
{
    lemma_line_start(t, y + 1);
    lemma_line_start_mono(t, y, y + 1);
    lemma_line_start(t, y);
}

/// A rope's UTF-8 length and its number of lines fit in `usize` (ropey
/// counts both in a `usize`).
pub open spec fn rope_fits(t: Seq<char>) -> bool {
    encode_utf8(t).len() <= usize::MAX && line_count(t) <= usize::MAX
}

/// Every char takes at least one byte.
pub proof fn lemma_chars_le_bytes(s: Seq<char>)
    ensures
        s.len() <= encode_utf8(s).len(),
    decreases s.len(),
{
    if s.len() > 0 {
        lemma_chars_le_bytes(s.drop_first());
    }
}

/// An empty rope (`Rope::new`).
#[verifier::external_body]
pub(crate) fn rope_new() -> (r: Rope)
    ensures
        rope_text(r) == Seq::<char>::empty(),
{
    Rope::new()
}

/// The number of bytes of the rope's UTF-8 text (`Rope::len_bytes`).
#[verifier::external_body]
pub(crate) fn rope_len_bytes(r: &Rope) -> (n: usize)
    ensures
        n == encode_utf8(rope_text(*r)).len(),
{
    r.len_bytes()
}

/// The number of chars of the rope.
#[verifier::external_body]
pub(crate) fn rope_len_chars(r: &Rope) -> (n: usize)
    ensures
        n == rope_text(*r).len(),
{
    r.len_chars()
}

/// The number of lines of the rope (`Rope::len_lines`).
#[verifier::external_body]
pub(crate) fn rope_len_lines(r: &Rope) -> (n: usize)
    ensures
        n == line_count(rope_text(*r)),
{
    r.len_lines()
}

/// The char at index `i` (`Rope::char`, which panics past the end).
#[verifier::external_body]
pub(crate) fn rope_char(r: &Rope, i: usize) -> (c: char)
    requires
        i < rope_text(*r).len(),
    ensures
        c == rope_text(*r)[i as int],
{
    r.char(i)
}

/// The char at index `i`, if there is one (`Rope::get_char`).
#[verifier::external_body]
pub(crate) fn rope_get_char(r: &Rope, i: usize) -> (c: Option<char>)
    ensures
        i < rope_text(*r).len() ==> c == Some(rope_text(*r)[i as int]),
        i >= rope_text(*r).len() ==> c is None,
{
    r.get_char(i)
}

/// Where line `y` starts (`Rope::line_to_char`, which panics past one after the last line).
#[verifier::external_body]
pub(crate) fn rope_line_to_char(r: &Rope, y: usize) -> (n: usize)
    requires
        y <= line_count(rope_text(*r)),
    ensures
        n == line_start(rope_text(*r), y as int),
{
    r.line_to_char(y)
}

/// Where line `y` starts, if `y` is at most the number of lines (`Rope::try_line_to_char`).
#[verifier::external_body]
pub(crate) fn rope_try_line_to_char(r: &Rope, y: usize) -> (n: Option<usize>)
    ensures
        y <= line_count(rope_text(*r)) ==> n == Some(line_start(rope_text(*r), y as int) as usize),
        y > line_count(rope_text(*r)) ==> n is None,
{
    r.try_line_to_char(y).ok()
}

/// The line of char `i` (`Rope::char_to_line`, which panics past the end).
#[verifier::external_body]
pub(crate) fn rope_char_to_line(r: &Rope, i: usize) -> (y: usize)
    requires
        i <= rope_text(*r).len(),
    ensures
        y == breaks_before(rope_text(*r), i as int),
{
    r.char_to_line(i)
}

/// Line `y`, its line break included (`Rope::line`, which panics past the last line).
#[verifier::external_body]
pub(crate) fn rope_line<'a>(r: &'a Rope, y: usize) -> (s: RopeSlice<'a>)
    requires
        y < line_count(rope_text(*r)),
    ensures
        slice_text(s) == line_text(rope_text(*r), y as int),
{
    r.line(y)
}

/// Line `y`, if there is one (`Rope::get_line`).
#[verifier::external_body]
pub(crate) fn rope_get_line<'a>(r: &'a Rope, y: usize) -> (s: Option<RopeSlice<'a>>)
    ensures
        y < line_count(rope_text(*r)) <==> s is Some,
        s matches Some(l) ==> slice_text(l) == line_text(rope_text(*r), y as int),
{
    r.get_line(y)
}

/// The chars in `start..end` (`Rope::slice`, which panics on a bad range).
#[verifier::external_body]
pub(crate) fn rope_slice<'a>(r: &'a Rope, start: usize, end: usize) -> (s: RopeSlice<'a>)
    requires
        start <= end <= rope_text(*r).len(),
    ensures
        slice_text(s) == rope_text(*r).subrange(start as int, end as int),
{
    r.slice(start..end)
}

/// The chars in `start..end`, if that range lies in the rope (`Rope::get_slice`).
#[verifier::external_body]
pub(crate) fn rope_get_slice<'a>(r: &'a Rope, start: usize, end: usize) -> (s: Option<RopeSlice<'a>>)
    ensures
        (start <= end && end <= rope_text(*r).len()) <==> s is Some,
        s matches Some(l) ==> slice_text(l) == rope_text(*r).subrange(start as int, end as int),
{
    r.get_slice(start..end)
}

/// Inserts `s` at char index `i` (`Rope::insert`, which panics past the end).
/// Like every rope, the result counts its bytes and its lines in a `usize`.
#[verifier::external_body]
pub(crate) fn rope_insert(r: &mut Rope, i: usize, s: &str)
    requires
        i <= rope_text(*old(r)).len(),
    ensures
        rope_fits(rope_text(*final(r))),
        rope_text(*final(r)) == rope_text(*old(r)).take(i as int) + s@ + rope_text(*old(r)).skip(
            i as int,
        ),
{
    r.insert(i, s)
}

/// Removes the chars in `start..end` (`Rope::remove`, which panics on a bad range).
/// Like every rope, the result counts its bytes and its lines in a `usize`.
#[verifier::external_body]
pub(crate) fn rope_remove(r: &mut Rope, start: usize, end: usize)
    requires
        start <= end <= rope_text(*old(r)).len(),
    ensures
        rope_fits(rope_text(*final(r))),
        rope_text(*final(r)) == rope_text(*old(r)).take(start as int) + rope_text(*old(r)).skip(
            end as int,
        ),
{
    r.remove(start..end)
}

/// The number of chars of a slice.
#[verifier::external_body]
pub(crate) fn slice_len_chars(s: &RopeSlice) -> (n: usize)
    ensures
        n == slice_text(*s).len(),
{
    s.len_chars()
}

/// The char at index `i` of a slice (`RopeSlice::char`, which panics past the end).
#[verifier::external_body]
pub(crate) fn slice_char(s: &RopeSlice, i: usize) -> (c: char)
    requires
        i < slice_text(*s).len(),
    ensures
        c == slice_text(*s)[i as int],
{
    s.char(i)
}

/// The chars of a slice as a `String`.
#[verifier::external_body]
pub(crate) fn slice_to_string(s: &RopeSlice) -> (r: String)
    ensures
        r@ == slice_text(*s),
{
    s.to_string()
}

} // verus!
