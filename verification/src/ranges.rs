//! Char indices that the motions and text objects of the editor move to or select.

use vstd::prelude::*;
use ropey::{Rope, RopeSlice};
use crate::chars::{is_white, is_whitespace, is_word, is_word_char};
use crate::scan::{first_from, last_from, scan_down, range_sum, lemma_first_from, lemma_first_from_is, lemma_last_from, lemma_last_from_is, lemma_scan_down, lemma_scan_down_is, lemma_range_sum_low, lemma_range_sum_split};
use crate::text::{
    rope_text, slice_text, line_count, line_start, line_len, line_text, breaks_before, rope_fits,
    lemma_line_bounds, lemma_line_start, lemma_line_start_mono, lemma_char_line, lemma_chars_le_bytes,
    lemma_breaks_step, rope_len_chars, rope_len_lines, rope_char, rope_get_char, rope_line_to_char,
    rope_try_line_to_char, rope_char_to_line, rope_line, rope_get_line, rope_slice, rope_get_slice,
    slice_len_chars, slice_char, slice_to_string,
};
use crate::types::CursorPos;
use crate::strings::push_char;
use crate::find::{find_in, rfind_in, find_str, rfind_str, lemma_offset_within, occurs, occurs_at};
use vstd::utf8::{encode_utf8, is_ascii_chars, is_ascii_chars_encode_utf8};

verus! {

/// `a - b`, or 0 when `b` is larger.
pub open spec fn sat_sub(a: int, b: int) -> int {
    if a >= b {
        a - b
    } else {
        0
    }
}

pub open spec fn min_int(a: int, b: int) -> int {
    if a <= b {
        a
    } else {
        b
    }
}

/// Where a vertical move lands on line `y`: column `x`, but not past the
/// line's last char.
pub open spec fn column_on_line(t: Seq<char>, y: int, x: int) -> int {
    line_start(t, y) + min_int(x, sat_sub(line_len(t, y), 1))
}

/// Whether `idx` is past the text or on a `\n`.
pub fn is_end_of_line(idx: usize, rope: &Rope) -> (r: bool)
    ensures
        r == (idx >= rope_text(*rope).len() || rope_text(*rope)[idx as int] == '\n'),
{
    if let Some(c) = rope_get_char(rope, idx) {
        return c == '\n';
    }
    true
}

/// Whether a line holds nothing but its line break.
pub fn is_empty_line(rope_line: &RopeSlice) -> (r: bool)
    ensures
        r == (slice_text(*rope_line).len() == 1),
{
    if slice_len_chars(rope_line) == 1 {
        return true;
    }
    false
}

/// `count` columns to the left on the cursor's line, stopping at its start.
pub fn cursor_left_idx(cursor_pos: &CursorPos, count: usize, rope: &Rope) -> (r: usize)
    requires
        cursor_pos.y <= line_count(rope_text(*rope)),
        line_start(rope_text(*rope), cursor_pos.y as int) + sat_sub(
            cursor_pos.x as int,
            count as int,
        ) <= usize::MAX,
    ensures
        r == line_start(rope_text(*rope), cursor_pos.y as int) + sat_sub(
            cursor_pos.x as int,
            count as int,
        ),
{
    let idx = rope_line_to_char(rope, cursor_pos.y);
    let target_x = cursor_pos.x.saturating_sub(count);
    idx + target_x
}

/// `count` columns to the right on the cursor's line, stopping at its last char.
pub fn cursor_right_idx(cursor_pos: &CursorPos, count: usize, rope: &Rope) -> (r: usize)
    requires
        cursor_pos.y < line_count(rope_text(*rope)),
        cursor_pos.x + count <= usize::MAX,
        rope_fits(rope_text(*rope)),
    ensures
        r == line_start(rope_text(*rope), cursor_pos.y as int) + min_int(
            cursor_pos.x + count,
            sat_sub(line_len(rope_text(*rope), cursor_pos.y as int), 1),
        ),
{
    let ghost t = rope_text(*rope);
    proof {
        lemma_line_bounds(t, cursor_pos.y as int);
        lemma_chars_le_bytes(t);
    }
    let idx = rope_line_to_char(rope, cursor_pos.y);
    let line = rope_line(rope, cursor_pos.y);
    let target_x = (cursor_pos.x + count).min(slice_len_chars(&line).saturating_sub(1));
    idx + target_x
}

/// `count` lines up (stopping at the first line), keeping the column where the line allows.
pub fn cursor_up_idx(cursor_pos: &CursorPos, count: usize, rope: &Rope) -> (r: usize)
    requires
        sat_sub(cursor_pos.y as int, count as int) < line_count(rope_text(*rope)),
        rope_fits(rope_text(*rope)),
    ensures
        r == column_on_line(
            rope_text(*rope),
            sat_sub(cursor_pos.y as int, count as int),
            cursor_pos.x as int,
        ),
{
    let ghost t = rope_text(*rope);
    let target_y = cursor_pos.y.saturating_sub(count);
    proof {
        lemma_line_bounds(t, target_y as int);
        lemma_chars_le_bytes(t);
    }
    let i = rope_line_to_char(rope, target_y);

    // get line length
    let target_line = rope_line(rope, target_y);
    let line_len = slice_len_chars(&target_line);

    // prevent x from exceeding the line length
    let target_x = cursor_pos.x.min(line_len.saturating_sub(1));
    return i + target_x;
}

/// The last line a downward move may reach: the one before the (empty)
/// line after the final line break.
pub open spec fn last_target_line(t: Seq<char>) -> int {
    sat_sub(line_count(t) as int, 2)
}

/// `count` lines down (stopping at the last line but one), keeping the column
/// where the line allows.
pub fn cursor_down_idx(cursor_pos: &CursorPos, count: usize, rope: &Rope) -> (r: usize)
    requires
        cursor_pos.y + count <= usize::MAX,
        rope_fits(rope_text(*rope)),
    ensures
        r == column_on_line(
            rope_text(*rope),
            min_int(cursor_pos.y + count, last_target_line(rope_text(*rope))),
            cursor_pos.x as int,
        ),
{
    let ghost t = rope_text(*rope);
    proof {
        lemma_chars_le_bytes(t);
    }
    // check if cursor is on last line
    let total_lines = rope_len_lines(rope).saturating_sub(2);
    let target_y = (cursor_pos.y + count).min(total_lines);
    proof {
        lemma_line_bounds(t, target_y as int);
    }
    if let Some(i) = rope_try_line_to_char(rope, target_y) {
        // get line length
        let target_line = rope_line(rope, target_y);
        let line_len = slice_len_chars(&target_line);

        // prevent x from exceeding the line length
        let target_x = cursor_pos.x.min(line_len.saturating_sub(1));
        return i + target_x;
    } else {
        // go to last line
        let target_y = total_lines;

        // get line length
        let target_line = rope_line(rope, target_y);
        let line_len = slice_len_chars(&target_line);

        // prevent x from exceeding the line length
        let target_x = cursor_pos.x.min(line_len.saturating_sub(1));
        rope_line_to_char(rope, target_y) + target_x
    }
}

/// A char that indentation is made of: white space other than `\n`.
pub open spec fn is_indent(c: char) -> bool {
    is_white(c) && c != '\n'
}

/// The index of the first `\n` from `idx` on, or the end of the text (`$`).
pub open spec fn next_break(t: Seq<char>, idx: int) -> int {
    first_from(idx, t.len() as int, |k: int| t[k] == '\n')
}

/// The first char of line `y` that is not indentation, or the start of the
/// next line (`^`).
pub open spec fn first_non_indent(t: Seq<char>, y: int) -> int {
    first_from(line_start(t, y), line_start(t, y + 1), |k: int| !is_indent(t[k]))
}

/// The first char of the cursor's line that is not indentation (or the end of the line).
pub fn first_word_idx(cursor_pos: &CursorPos, rope: &Rope) -> (r: usize)
    requires
        cursor_pos.y < line_count(rope_text(*rope)),
        rope_fits(rope_text(*rope)),
    ensures
        r == first_from(
            line_start(rope_text(*rope), cursor_pos.y as int),
            line_start(rope_text(*rope), cursor_pos.y + 1),
            |k: int| !is_indent(rope_text(*rope)[k]),
        ),
        r == first_non_indent(rope_text(*rope), cursor_pos.y as int),
{
    let ghost t = rope_text(*rope);
    let ghost lo = line_start(t, cursor_pos.y as int);
    let ghost hi = line_start(t, cursor_pos.y + 1);
    let ghost p = |k: int| !is_indent(t[k]);
    proof {
        lemma_line_bounds(t, cursor_pos.y as int);
        lemma_chars_le_bytes(t);
    }
    let y = cursor_pos.y;
    let line = rope_line(rope, y);
    let mut first_word_idx = rope_line_to_char(rope, y);
    let n = slice_len_chars(&line);
    let mut i: usize = 0;
    while i < n
        invariant
            p == (|k: int| !is_indent(t[k])),
            slice_text(line) == t.subrange(lo, hi),
            n == hi - lo,
            0 <= lo <= hi <= t.len() <= usize::MAX,
            0 <= i <= n,
            first_word_idx == lo + i,
            forall|k: int| lo <= k < lo + i ==> !#[trigger] p(k),
        ensures
            i == n || p(lo + i),
        decreases n - i,
    {
        let c = slice_char(&line, i);
        assert(c == t[lo + i]);
        if is_whitespace(c) && c != '\n' {
            first_word_idx += 1;
            i += 1;
            continue;
        }
        break;
    }
    proof {
        lemma_first_from_is(lo, hi, p, first_word_idx as int);
    }
    first_word_idx
}

/// Where line `current_line` starts.
pub fn line_start_idx(current_line: usize, rope: &Rope) -> (r: usize)
    requires
        current_line <= line_count(rope_text(*rope)),
    ensures
        r == line_start(rope_text(*rope), current_line as int),
{
    rope_line_to_char(rope, current_line)
}

/// The first `\n` at or after `idx` (or the end of the text); `idx` itself when past the end.
pub fn line_end_idx(idx: usize, rope: &Rope) -> (r: usize)
    requires
        rope_fits(rope_text(*rope)),
    ensures
        r == first_from(idx as int, rope_text(*rope).len() as int, |k: int| rope_text(*rope)[k] == '\n'),
        r == next_break(rope_text(*rope), idx as int),
{
    let ghost t = rope_text(*rope);
    let ghost p = |k: int| t[k] == '\n';
    proof {
        lemma_chars_le_bytes(t);
    }
    let mut idx = idx;
    let ghost start = idx as int;
    while !is_end_of_line(idx, rope)
        invariant
            t == rope_text(*rope),
            p == (|k: int| t[k] == '\n'),
            t.len() <= usize::MAX,
            start <= idx,
            start < t.len() ==> idx <= t.len(),
            start >= t.len() ==> idx == start,
            forall|k: int| start <= k < idx ==> !#[trigger] p(k),
        decreases t.len() - idx,
    {
        assert(!p(idx as int));
        idx += 1;
    }
    proof {
        if start < t.len() {
            lemma_first_from_is(start, t.len() as int, p, idx as int);
        }
    }
    idx
}

/// The last char but one of the text (the char before the final line break).
pub fn file_end_idx(rope: &Rope) -> (r: usize)
    ensures
        r == sat_sub(rope_text(*rope).len() as int, 2),
{
    rope_len_chars(rope).saturating_sub(2)
}

/// +1 for `opening` and -1 for `closing` (a char that is both counts 0).
pub open spec fn bracket_step(t: Seq<char>, opening: char, closing: char) -> spec_fn(int) -> int {
    |i: int| (if t[i] == opening { 1int } else { 0int }) - (if t[i] == closing { 1int } else { 0int })
}

/// The openings minus the closings in `a..b`.
pub open spec fn depth(t: Seq<char>, opening: char, closing: char, a: int, b: int) -> int {
    range_sum(a, b, bracket_step(t, opening, closing))
}

/// +1 for `opening`, else -1 for `closing`.
pub open spec fn nest_step(t: Seq<char>, opening: char, closing: char) -> spec_fn(int) -> int {
    |i: int|
        if t[i] == opening {
            1int
        } else if t[i] == closing {
            -1int
        } else {
            0int
        }
}

/// Depth counted as `nest_step` counts it over `a..b`.
pub open spec fn nest_depth(t: Seq<char>, opening: char, closing: char, a: int, b: int) -> int {
    range_sum(a, b, nest_step(t, opening, closing))
}

/// The number of `\n` in `a..b`.
pub open spec fn newlines(t: Seq<char>, a: int, b: int) -> int {
    range_sum(a, b, |i: int| if t[i] == '\n' { 1int } else { 0int })
}

/// How many lines a bracket search may cross: 1000 for `{`, 100 otherwise.
pub open spec fn bracket_line_limit(opening: char) -> int {
    if opening == '{' {
        1000
    } else {
        100
    }
}

/// Where a forward search from `s` stops: past its line limit, or on a
/// `closing` that balances everything since `s`.
pub open spec fn close_stop(t: Seq<char>, opening: char, closing: char, s: int, limit: int) -> spec_fn(int) -> bool {
    |j: int| newlines(t, s, j) >= limit || (t[j] == closing && depth(t, opening, closing, s, j) == 0)
}

/// The `closing` that balances the text from `s`, searched within `limit` lines.
pub open spec fn close_forward(t: Seq<char>, opening: char, closing: char, s: int, limit: int) -> Option<int> {
    let j = first_from(s, t.len() as int, close_stop(t, opening, closing, s, limit));
    if j < t.len() && newlines(t, s, j) < limit {
        Some(j)
    } else {
        None
    }
}

/// Where a backward search from before `e` stops: past its line limit, or on an
/// `opening` that balances everything up to `e`.
pub open spec fn open_stop(t: Seq<char>, opening: char, closing: char, e: int, limit: int) -> spec_fn(int) -> bool {
    |k: int| newlines(t, k + 1, e) >= limit || (t[k] == opening && depth(t, opening, closing, k + 1, e) == 0)
}

/// The `opening` that balances the text before `e`, searched within `limit` lines.
pub open spec fn open_backward(t: Seq<char>, opening: char, closing: char, e: int, limit: int) -> Option<int> {
    let k = last_from(0, e, open_stop(t, opening, closing, e, limit));
    if k >= 0 && newlines(t, k + 1, e) < limit {
        Some(k)
    } else {
        None
    }
}

/// Where the search for the next `opening` from `s` stops.
pub open spec fn next_open_stop(t: Seq<char>, opening: char, s: int, limit: int) -> spec_fn(int) -> bool {
    |j: int| newlines(t, s, j) >= limit || t[j] == opening
}

/// Where the search for the `closing` of the pair opened before `o` stops
/// (lines still counted from `s`).
pub open spec fn pair_close_stop(t: Seq<char>, opening: char, closing: char, s: int, o: int, limit: int) -> spec_fn(int) -> bool {
    |j: int|
        newlines(t, s, j) >= limit || (t[j] != opening && t[j] == closing && nest_depth(
            t,
            opening,
            closing,
            o,
            j,
        ) == 0)
}

/// The inside of the next bracket pair that starts at or after `s`, within `limit` lines.
pub open spec fn next_pair(t: Seq<char>, opening: char, closing: char, s: int, limit: int) -> Option<(int, int)> {
    let o = first_from(s, t.len() as int, next_open_stop(t, opening, s, limit));
    if o < t.len() && newlines(t, s, o) < limit {
        let j = first_from(o + 1, t.len() as int, pair_close_stop(t, opening, closing, s, o + 1, limit));
        if j < t.len() && newlines(t, s, j) < limit {
            Some((o + 1, j))
        } else {
            None
        }
    } else {
        None
    }
}

/// The inside of the bracket pair around (or on) `ci`, as a range `start..end`:
/// from the cursor on `opening` forwards, from the cursor on `closing` backwards,
/// otherwise around the cursor, or else the next pair after it.
pub open spec fn brackets_around(t: Seq<char>, ci: int, opening: char, closing: char) -> Option<(int, int)> {
    let limit = bracket_line_limit(opening);
    if ci >= t.len() {
        None
    } else if t[ci] == opening {
        match close_forward(t, opening, closing, ci + 1, limit) {
            Some(j) => Some((ci + 1, j)),
            None => None,
        }
    } else if t[ci] == closing {
        match open_backward(t, opening, closing, ci, limit) {
            Some(k) => Some((k + 1, ci)),
            None => None,
        }
    } else {
        match open_backward(t, opening, closing, ci, limit) {
            Some(k) => match close_forward(t, opening, closing, k + 1, limit) {
                Some(j) => Some((k + 1, j)),
                None => None,
            },
            None => next_pair(t, opening, closing, ci + 1, limit),
        }
    }
}

pub open spec fn opt_int(o: Option<usize>) -> Option<int> {
    match o {
        Some(v) => Some(v as int),
        None => None,
    }
}

pub open spec fn opt_pair(o: Option<(usize, usize)>) -> Option<(int, int)> {
    match o {
        Some(v) => Some((v.0 as int, v.1 as int)),
        None => None,
    }
}

/// Forward search for the balancing `closing`, from `s` on.
fn scan_close_forward(rope: &Rope, s: usize, opening: char, closing: char, limit: usize) -> (r: Option<usize>)
    requires
        rope_fits(rope_text(*rope)),
    ensures
        opt_int(r) == close_forward(rope_text(*rope), opening, closing, s as int, limit as int),
{
    let ghost t = rope_text(*rope);
    let ghost stop = close_stop(t, opening, closing, s as int, limit as int);
    let ghost nl = |i: int| if t[i] == '\n' { 1int } else { 0int };
    let ghost step = bracket_step(t, opening, closing);
    proof {
        lemma_chars_le_bytes(t);
    }
    let len = rope_len_chars(rope);
    let mut idx = s;
    let mut count: usize = 0;
    let mut line_count: usize = 0;
    while idx < len && line_count < limit
        invariant
            t == rope_text(*rope),
            len == t.len(),
            stop == close_stop(t, opening, closing, s as int, limit as int),
            nl == (|i: int| if t[i] == '\n' { 1int } else { 0int }),
            step == bracket_step(t, opening, closing),
            s <= idx,
            s < len ==> idx <= len,
            s >= len ==> idx == s,
            count <= idx - s,
            line_count <= idx - s,
            count == depth(t, opening, closing, s as int, idx as int),
            line_count == newlines(t, s as int, idx as int),
            forall|j: int| s <= j < idx ==> !#[trigger] stop(j),
        decreases len - idx,
    {
        let c = rope_char(rope, idx);
        assert(stop(idx as int) == (c == closing && count == 0));
        if c == closing {
            if count == 0 {
                proof {
                    lemma_first_from_is(s as int, t.len() as int, stop, idx as int);
                }
                return Some(idx);
            } else {
                count -= 1;
            }
        }
        if c == opening {
            count += 1;
        }
        if c == '\n' {
            line_count += 1;
        }
        assert(step(idx as int) == (if c == opening { 1int } else { 0int }) - (if c == closing { 1int } else { 0int }));
        assert(nl(idx as int) == if c == '\n' { 1int } else { 0int });
        idx += 1;
    }
    proof {
        if s < len {
            lemma_first_from_is(s as int, t.len() as int, stop, idx as int);
        }
    }
    None
}

/// Backward search for the balancing `opening`, from before `e` down.
fn scan_open_backward(rope: &Rope, e: usize, opening: char, closing: char, limit: usize) -> (r: Option<usize>)
    requires
        e <= rope_text(*rope).len(),
    ensures
        opt_int(r) == open_backward(rope_text(*rope), opening, closing, e as int, limit as int),
        r matches Some(k) ==> k < e,
{
    let ghost t = rope_text(*rope);
    let ghost stop = open_stop(t, opening, closing, e as int, limit as int);
    let ghost nl = |i: int| if t[i] == '\n' { 1int } else { 0int };
    let ghost step = bracket_step(t, opening, closing);
    let mut idx = e;
    let mut count: usize = 0;
    let mut line_count: usize = 0;
    while idx > 0 && line_count < limit
        invariant
            t == rope_text(*rope),
            e <= t.len(),
            stop == open_stop(t, opening, closing, e as int, limit as int),
            nl == (|i: int| if t[i] == '\n' { 1int } else { 0int }),
            step == bracket_step(t, opening, closing),
            idx <= e,
            count <= e - idx,
            line_count <= e - idx,
            count == -depth(t, opening, closing, idx as int, e as int),
            line_count == newlines(t, idx as int, e as int),
            forall|k: int| idx <= k < e ==> !#[trigger] stop(k),
        decreases idx,
    {
        idx -= 1;
        let c = rope_char(rope, idx);
        assert(stop(idx as int) == (c == opening && count == 0));
        proof {
            lemma_range_sum_low(idx as int, e as int, step);
            lemma_range_sum_low(idx as int, e as int, nl);
        }
        if c == opening {
            if count == 0 {
                proof {
                    lemma_last_from_is(0, e as int, stop, idx as int);
                }
                return Some(idx);
            } else {
                count -= 1;
            }
        }
        if c == closing {
            count += 1;
        }
        if c == '\n' {
            line_count += 1;
        }
        assert(step(idx as int) == (if c == opening { 1int } else { 0int }) - (if c == closing { 1int } else { 0int }));
        assert(nl(idx as int) == if c == '\n' { 1int } else { 0int });
    }
    proof {
        lemma_last_from_is(0, e as int, stop, idx as int - 1);
    }
    None
}

/// The inside of the bracket pair `opening`..`closing` at or around `char_idx`,
/// as a range `start..end`: the pair that starts at the cursor, the pair that
/// ends at it, the pair around it, or else the next pair after it. A search
/// crosses at most 100 lines (1000 for `{`).
pub fn inside_brackets(char_idx: usize, rope: &Rope, opening: char, closing: char) -> (r: Option<(usize, usize)>)
    requires
        rope_fits(rope_text(*rope)),
    ensures
        opt_pair(r) == brackets_around(rope_text(*rope), char_idx as int, opening, closing),
{
    let ghost t = rope_text(*rope);
    proof {
        lemma_chars_le_bytes(t);
    }
    let mut line_limit: usize = 100;
    match opening {
        '{' => {
            line_limit = 1000;
        },
        _ => {},
    }
    let len = rope_len_chars(rope);
    assert(line_limit as int == bracket_line_limit(opening));
    if char_idx >= len {
        return None;
    }
    let start;
    let end;
    // cursor is on the opening bracket
    if rope_char(rope, char_idx) == opening {
        start = char_idx + 1;
        if let Some(j) = scan_close_forward(rope, start, opening, closing, line_limit) {
            end = j;
            return Some((start, end));
        }
        return None;
    }
    // cursor is on the closing bracket
    if rope_char(rope, char_idx) == closing {
        end = char_idx;
        if let Some(k) = scan_open_backward(rope, char_idx, opening, closing, line_limit) {
            start = k + 1;
            return Some((start, end));
        }
        return None;
    }
    // check if the cursor is inside a pair
    if let Some(k) = scan_open_backward(rope, char_idx, opening, closing, line_limit) {
        start = k + 1;
        if let Some(j) = scan_close_forward(rope, start, opening, closing, line_limit) {
            end = j;
            return Some((start, end));
        }
        return None;
    }
    // find the next pair: the first opening, then its balancing closing
    let ghost s = char_idx + 1;
    let ghost ostop = next_open_stop(t, opening, s, line_limit as int);
    let ghost nl = |i: int| if t[i] == '\n' { 1int } else { 0int };
    let ghost nstep = nest_step(t, opening, closing);
    assert(brackets_around(t, char_idx as int, opening, closing) == next_pair(t, opening, closing, s, line_limit as int));
    let mut idx = char_idx + 1;
    let mut count: usize = 0;
    let mut line_count: usize = 0;
    let mut found_start = false;
    let mut pair_start: usize = 0;
    while idx < len && line_count < line_limit
        invariant
            t == rope_text(*rope),
            len == t.len(),
            s == char_idx + 1,
            s <= len,
            line_limit as int == bracket_line_limit(opening),
            brackets_around(t, char_idx as int, opening, closing) == next_pair(t, opening, closing, s, line_limit as int),
            ostop == next_open_stop(t, opening, s, line_limit as int),
            nl == (|i: int| if t[i] == '\n' { 1int } else { 0int }),
            nstep == nest_step(t, opening, closing),
            s <= idx <= len,
            line_count <= idx - s,
            line_count == newlines(t, s, idx as int),
            !found_start ==> forall|j: int| s <= j < idx ==> !#[trigger] ostop(j),
            !found_start ==> count == 0,
            found_start ==> {
                &&& s < pair_start <= idx
                &&& first_from(s, t.len() as int, ostop) == pair_start - 1
                &&& newlines(t, s, pair_start - 1) < line_limit
                &&& count <= idx - pair_start
                &&& count == nest_depth(t, opening, closing, pair_start as int, idx as int)
                &&& forall|j: int| pair_start <= j < idx ==> !#[trigger] pair_close_stop(t, opening, closing, s, pair_start as int, line_limit as int)(j)
            },
        decreases len - idx,
    {
        let c = rope_char(rope, idx);
        let ghost old_count = count;
        if found_start {
            if c == opening {
                count += 1;
            } else if c == closing {
                if count == 0 {
                    assert(pair_close_stop(t, opening, closing, s, pair_start as int, line_limit as int)(idx as int));
                    proof {
                        lemma_first_from_is(pair_start as int, t.len() as int, pair_close_stop(t, opening, closing, s, pair_start as int, line_limit as int), idx as int);
                    }
                    return Some((pair_start, idx));
                } else {
                    count -= 1;
                }
            }
            assert(nstep(idx as int) == if c == opening { 1int } else if c == closing { -1int } else { 0int });
        } else if c == opening {
            proof {
                lemma_first_from_is(s, t.len() as int, ostop, idx as int);
            }
            pair_start = idx + 1;
            found_start = true;
        }
        if c == '\n' {
            line_count += 1;
        }
        assert(nl(idx as int) == if c == '\n' { 1int } else { 0int });
        idx += 1;
    }
    proof {
        if !found_start {
            lemma_first_from_is(s, t.len() as int, ostop, idx as int);
        } else {
            lemma_first_from_is(pair_start as int, t.len() as int, pair_close_stop(t, opening, closing, s, pair_start as int, line_limit as int), idx as int);
        }
    }
    None
}

/// The bracket pair that `c` opens or closes: `[]`, `()`, `{}` or `<>`.
pub open spec fn bracket_pair(c: char) -> Option<(char, char)> {
    if c == '[' || c == ']' {
        Some(('[', ']'))
    } else if c == '(' || c == ')' {
        Some(('(', ')'))
    } else if c == '{' || c == '}' {
        Some(('{', '}'))
    } else if c == '<' || c == '>' {
        Some(('<', '>'))
    } else {
        None
    }
}

/// One of the opening brackets `[`, `(`, `{`, `<`.
pub open spec fn is_opening_bracket(c: char) -> bool {
    c == '[' || c == '(' || c == '{' || c == '<'
}

/// One of the closing brackets `]`, `)`, `}`, `>`.
pub open spec fn is_closing_bracket(c: char) -> bool {
    c == ']' || c == ')' || c == '}' || c == '>'
}

fn bracket_pair_of(token: char) -> (r: Option<(char, char)>)
    ensures
        r == bracket_pair(token),
{
    if token == '[' || token == ']' {
        Some(('[', ']'))
    } else if token == '(' || token == ')' {
        Some(('(', ')'))
    } else if token == '{' || token == '}' {
        Some(('{', '}'))
    } else if token == '<' || token == '>' {
        Some(('<', '>'))
    } else {
        None
    }
}

pub(crate) fn is_opening(c: char) -> (r: bool)
    ensures
        r == is_opening_bracket(c),
{
    c == '[' || c == '(' || c == '{' || c == '<'
}

pub(crate) fn is_closing(c: char) -> (r: bool)
    ensures
        r == is_closing_bracket(c),
{
    c == ']' || c == ')' || c == '}' || c == '>'
}

/// +1 for `closing`, else -1 for `opening`.
pub open spec fn nest_back_step(t: Seq<char>, opening: char, closing: char) -> spec_fn(int) -> int {
    |i: int|
        if t[i] == closing {
            1int
        } else if t[i] == opening {
            -1int
        } else {
            0int
        }
}

/// Where the forward search for the bracket matching an opening at `ci` stops.
pub open spec fn match_close_stop(t: Seq<char>, opening: char, closing: char, ci: int) -> spec_fn(int) -> bool {
    |j: int| t[j] != opening && t[j] == closing && nest_depth(t, opening, closing, ci + 1, j) == 0
}

/// Where the backward search for the bracket matching a closing at `ci` stops.
pub open spec fn match_open_stop(t: Seq<char>, opening: char, closing: char, ci: int) -> spec_fn(int) -> bool {
    |k: int|
        t[k] != closing && t[k] == opening && range_sum(k + 1, ci, nest_back_step(t, opening, closing))
            == 0
}

/// The bracket that matches the one at `ci`: for an opening bracket the first
/// balancing closing one after it, up to the end of the text, for a closing
/// bracket the nearest balancing opening one before it.
#[verifier::opaque]
pub open spec fn matching_bracket(t: Seq<char>, ci: int) -> Option<int> {
    match bracket_pair(t[ci]) {
        None => None,
        Some(pair) => {
            let (opening, closing) = pair;
            if t[ci] == opening {
                let j = first_from(ci + 1, t.len() as int, match_close_stop(t, opening, closing, ci));
                if j < t.len() {
                    Some(j)
                } else {
                    None
                }
            } else {
                let k = last_from(0, ci, match_open_stop(t, opening, closing, ci));
                if k >= 0 {
                    Some(k)
                } else {
                    None
                }
            }
        },
    }
}

/// Counted backwards, the depth is the forward depth negated.
proof fn lemma_back_is_neg(t: Seq<char>, opening: char, closing: char, lo: int, hi: int)
    requires
        opening != closing,
    ensures
        range_sum(lo, hi, nest_back_step(t, opening, closing)) == -nest_depth(t, opening, closing, lo, hi),
    decreases hi - lo,
{
    if lo < hi {
        lemma_back_is_neg(t, opening, closing, lo, hi - 1);
    }
}

/// Before the forward search from an opening bracket at `i` stops, the depth
/// it counts never drops below zero.
proof fn lemma_forward_depth(t: Seq<char>, opening: char, closing: char, i: int, m: int)
    requires
        opening != closing,
        i + 1 <= m,
        forall|k: int| i + 1 <= k < m ==> !#[trigger] match_close_stop(t, opening, closing, i)(k),
    ensures
        nest_depth(t, opening, closing, i + 1, m) >= 0,
    decreases m - i,
{
    if m > i + 1 {
        lemma_forward_depth(t, opening, closing, i, m - 1);
        assert(!match_close_stop(t, opening, closing, i)(m - 1));
    }
}

/// Before the backward search from a closing bracket at `j` stops, the depth
/// it counts never drops below zero.
proof fn lemma_backward_depth(t: Seq<char>, opening: char, closing: char, j: int, m: int)
    requires
        opening != closing,
        m <= j,
        forall|k: int| m <= k < j ==> !#[trigger] match_open_stop(t, opening, closing, j)(k),
    ensures
        range_sum(m, j, nest_back_step(t, opening, closing)) >= 0,
    decreases j - m,
{
    if m < j {
        lemma_backward_depth(t, opening, closing, j, m + 1);
        lemma_range_sum_low(m, j, nest_back_step(t, opening, closing));
        assert(!match_open_stop(t, opening, closing, j)(m));
    }
}

/// Matching brackets come in pairs: the match of the match of a bracket is
/// that bracket again, the two are of one kind, and the opening one comes first.
pub proof fn lemma_matching_bracket_symmetric(t: Seq<char>, i: int)
    requires
        0 <= i < t.len(),
        matching_bracket(t, i) is Some,
    ensures
        ({
            let j = matching_bracket(t, i)->Some_0;
            &&& 0 <= j < t.len()
            &&& j != i
            &&& matching_bracket(t, j) == Some(i)
            &&& bracket_pair(t[j]) == bracket_pair(t[i])
            &&& (i < j <==> is_opening_bracket(t[i]))
        }),
{
    reveal(matching_bracket);
    let (opening, closing) = bracket_pair(t[i])->Some_0;
    assert(opening != closing);
    let n = t.len() as int;
    if t[i] == opening {
        let stop = match_close_stop(t, opening, closing, i);
        lemma_first_from(i + 1, n, stop);
        let j = first_from(i + 1, n, stop);
        assert(stop(j));
        let ostop = match_open_stop(t, opening, closing, j);
        let back = nest_back_step(t, opening, closing);
        lemma_back_is_neg(t, opening, closing, i + 1, j);
        assert forall|k: int| i < k < j implies !#[trigger] ostop(k) by {
            if t[k] == opening {
                lemma_forward_depth(t, opening, closing, i, k);
                lemma_range_sum_split(i + 1, k, j, nest_step(t, opening, closing));
                lemma_range_sum_low(k, j, nest_step(t, opening, closing));
                lemma_back_is_neg(t, opening, closing, k + 1, j);
            }
        }
        lemma_last_from_is(0, j, ostop, i);
    } else {
        let ostop = match_open_stop(t, opening, closing, i);
        lemma_last_from(0, i, ostop);
        let k = last_from(0, i, ostop);
        assert(ostop(k));
        let stop = match_close_stop(t, opening, closing, k);
        lemma_back_is_neg(t, opening, closing, k + 1, i);
        assert forall|m: int| k + 1 <= m < i implies !#[trigger] stop(m) by {
            if t[m] == closing && t[m] != opening {
                lemma_backward_depth(t, opening, closing, i, m + 1);
                lemma_range_sum_split(k + 1, m, i, nest_step(t, opening, closing));
                lemma_range_sum_low(m, i, nest_step(t, opening, closing));
                lemma_back_is_neg(t, opening, closing, m + 1, i);
            }
        }
        lemma_first_from_is(k + 1, n, stop, i);
    }
}

/// Takes a char index and a rope and checks the token of the char at the current index.
/// If the token is a bracket, it returns the matching bracket index, otherwise it returns None.
pub fn find_matching_bracket(char_idx: usize, rope: &Rope) -> (r: Option<usize>)
    requires
        char_idx < rope_text(*rope).len(),
        rope_fits(rope_text(*rope)),
    ensures
        opt_int(r) == matching_bracket(rope_text(*rope), char_idx as int),
        r matches Some(i) ==> i < rope_text(*rope).len(),
{
    let ghost t = rope_text(*rope);
    proof {
        lemma_chars_le_bytes(t);
        reveal(matching_bracket);
    }
    let token = rope_char(rope, char_idx);
    let mut idx = char_idx;
    let opening;
    let closing;
    if let Some(pair) = bracket_pair_of(token) {
        opening = pair.0;
        closing = pair.1;
    } else {
        return None;
    }
    let len = rope_len_chars(rope);
    if token == opening {
        // search forwards
        let ghost stop = match_close_stop(t, opening, closing, char_idx as int);
        let ghost step = nest_step(t, opening, closing);
        let mut count: usize = 0;
        idx += 1;
        while idx < len
            invariant
                t == rope_text(*rope),
                len == t.len(),
                char_idx < len,
                stop == match_close_stop(t, opening, closing, char_idx as int),
                step == nest_step(t, opening, closing),
                bracket_pair(t[char_idx as int]) == Some((opening, closing)),
                t[char_idx as int] == opening,
                char_idx + 1 <= idx,
                idx <= len,
                count <= idx - char_idx - 1,
                count == nest_depth(t, opening, closing, char_idx + 1, idx as int),
                forall|j: int| char_idx + 1 <= j < idx ==> !#[trigger] stop(j),
            decreases len - idx,
        {
            let c = rope_char(rope, idx);
            if c == opening {
                count += 1;
            } else if c == closing {
                if count == 0 {
                    assert(stop(idx as int));
                    proof {
                        lemma_first_from_is(char_idx + 1, len as int, stop, idx as int);
                        reveal(matching_bracket);
                    }
                    return Some(idx);
                } else {
                    count -= 1;
                }
            }
            assert(step(idx as int) == if c == opening { 1int } else if c == closing { -1int } else { 0int });
            idx += 1;
        }
        proof {
            lemma_first_from_is(char_idx + 1, len as int, stop, idx as int);
        }
    } else if token == closing {
        // search backwards
        let ghost stop = match_open_stop(t, opening, closing, char_idx as int);
        let ghost step = nest_back_step(t, opening, closing);
        let mut count: usize = 0;
        while idx > 0
            invariant
                t == rope_text(*rope),
                char_idx < t.len(),
                stop == match_open_stop(t, opening, closing, char_idx as int),
                step == nest_back_step(t, opening, closing),
                bracket_pair(t[char_idx as int]) == Some((opening, closing)),
                t[char_idx as int] != opening,
                idx <= char_idx,
                count <= char_idx - idx,
                count == range_sum(idx as int, char_idx as int, step),
                forall|k: int| idx <= k < char_idx ==> !#[trigger] stop(k),
            decreases idx,
        {
            idx -= 1;
            let c = rope_char(rope, idx);
            proof {
                lemma_range_sum_low(idx as int, char_idx as int, step);
            }
            if c == closing {
                count += 1;
            } else if c == opening {
                if count == 0 {
                    assert(stop(idx as int));
                    proof {
                        lemma_last_from_is(0, char_idx as int, stop, idx as int);
                        reveal(matching_bracket);
                    }
                    return Some(idx);
                } else {
                    count -= 1;
                }
            }
            assert(step(idx as int) == if c == closing { 1int } else if c == opening { -1int } else { 0int });
        }
        proof {
            lemma_last_from_is(0, char_idx as int, stop, -1);
        }
    }
    None
}

/// Where the backward search on a line for an unmatched opening bracket stops.
pub open spec fn enclosing_stop(line: Seq<char>, x: int) -> spec_fn(int) -> bool {
    |k: int|
        is_opening_bracket(line[k]) && range_sum(
            k + 1,
            x,
            |i: int|
                if is_opening_bracket(line[i]) {
                    -1int
                } else if is_closing_bracket(line[i]) {
                    1int
                } else {
                    0int
                },
        ) == 0
}

/// The bracket that `%` jumps to: the match of the bracket under the cursor;
/// else, on the cursor's line, the nearest unmatched opening bracket left of
/// the cursor; else the first closing bracket that follows an opening one
/// right of the cursor (before the line's last char).
pub open spec fn bracket_target(t: Seq<char>, y: int, x: int, ci: int) -> Option<int> {
    match matching_bracket(t, ci) {
        Some(i) => Some(i),
        None => {
            let line = line_text(t, y);
            let ls = line_start(t, y);
            let k = last_from(0, x, enclosing_stop(line, x));
            if k >= 0 {
                Some(ls + k)
            } else {
                let o = first_from(x + 1, line.len() - 1, |j: int| is_opening_bracket(line[j]));
                let j = first_from(o + 1, line.len() - 1, |j: int| is_closing_bracket(line[j]));
                if o < line.len() - 1 && j < line.len() - 1 {
                    Some(ls + j)
                } else {
                    None
                }
            }
        },
    }
}

/// The bracket that `%` jumps to from the cursor at `char_idx` (see `bracket_target`).
pub fn matching_bracket_idx(cursor_pos: &CursorPos, char_idx: usize, rope: &Rope) -> (r: Option<usize>)
    requires
        char_idx < rope_text(*rope).len(),
        matching_bracket(rope_text(*rope), char_idx as int) is Some || {
            &&& cursor_pos.y < line_count(rope_text(*rope))
            &&& cursor_pos.x <= line_len(rope_text(*rope), cursor_pos.y as int)
            &&& line_len(rope_text(*rope), cursor_pos.y as int) >= 1
            &&& cursor_pos.x < usize::MAX
        },
        rope_fits(rope_text(*rope)),
    ensures
        opt_int(r) == bracket_target(rope_text(*rope), cursor_pos.y as int, cursor_pos.x as int, char_idx as int),
{
    let ghost t = rope_text(*rope);
    proof {
        lemma_chars_le_bytes(t);
        lemma_line_bounds(t, cursor_pos.y as int);
    }
    // if cursor is on bracket
    if let Some(i) = find_matching_bracket(char_idx, rope) {
        return Some(i);
    }

    // if cursor is inside brackets inline
    let x = cursor_pos.x;
    let y = cursor_pos.y;
    let line = rope_line(rope, y);
    let line_char_idx = rope_line_to_char(rope, y);
    let ghost l = slice_text(line);
    let ghost estop = enclosing_stop(l, x as int);
    let ghost step = |i: int|
        if is_opening_bracket(l[i]) {
            -1int
        } else if is_closing_bracket(l[i]) {
            1int
        } else {
            0int
        };
    let mut idx = x;

    // search backwards for opening bracket
    let mut count: usize = 0;
    while idx > 0
        invariant
            l == slice_text(line),
            l == line_text(t, y as int),
            t == rope_text(*rope),
            matching_bracket(t, char_idx as int) is None,
            y == cursor_pos.y,
            x == cursor_pos.x,
            line_char_idx == line_start(t, y as int),
            line_char_idx + l.len() <= t.len() <= usize::MAX,
            x <= l.len(),
            x < usize::MAX,
            estop == enclosing_stop(l, x as int),
            step == (|i: int|
                if is_opening_bracket(l[i]) {
                    -1int
                } else if is_closing_bracket(l[i]) {
                    1int
                } else {
                    0int
                }),
            idx <= x,
            count <= x - idx,
            count == range_sum(idx as int, x as int, step),
            forall|k: int| idx <= k < x ==> !#[trigger] estop(k),
        decreases idx,
    {
        idx -= 1;
        let c = slice_char(&line, idx);
        proof {
            lemma_range_sum_low(idx as int, x as int, step);
        }
        if is_opening(c) {
            if count == 0 {
                assert(estop(idx as int));
                proof {
                    lemma_last_from_is(0, x as int, estop, idx as int);
                }
                return Some(line_char_idx + idx);
            }
            count -= 1;
        } else if is_closing(c) {
            count += 1;
        }
        assert(step(idx as int) == if is_opening_bracket(c) { -1int } else if is_closing_bracket(c) { 1int } else { 0int });
    }
    proof {
        lemma_last_from_is(0, x as int, estop, -1);
    }

    // if outside brackets, find next bracket pair
    let ghost op = |j: int| is_opening_bracket(l[j]);
    let ghost cp = |j: int| is_closing_bracket(l[j]);
    let n = slice_len_chars(&line);
    let mut found_opening = false;
    let ghost mut o: int = 0;
    idx = x + 1;
    while idx < n - 1
        invariant
            l == slice_text(line),
            l == line_text(t, y as int),
            t == rope_text(*rope),
            matching_bracket(t, char_idx as int) is None,
            last_from(0, x as int, estop) == -1,
            estop == enclosing_stop(l, x as int),
            y == cursor_pos.y,
            x == cursor_pos.x,
            line_char_idx == line_start(t, y as int),
            n == l.len(),
            n >= 1,
            line_char_idx + l.len() <= t.len() <= usize::MAX,
            op == (|j: int| is_opening_bracket(l[j])),
            cp == (|j: int| is_closing_bracket(l[j])),
            x + 1 <= idx <= if x + 1 <= n - 1 { n - 1 } else { x + 1 },
            !found_opening ==> forall|j: int| x + 1 <= j < idx ==> !#[trigger] op(j),
            found_opening ==> {
                &&& x + 1 <= o < idx
                &&& first_from(x + 1, n - 1, op) == o
                &&& forall|j: int| o + 1 <= j < idx ==> !#[trigger] cp(j)
            },
        decreases n - idx,
    {
        let c = slice_char(&line, idx);
        if is_opening(c) {
            if !found_opening {
                proof {
                    lemma_first_from_is(x + 1, n - 1, op, idx as int);
                    o = idx as int;
                }
            }
            found_opening = true;
        } else if is_closing(c) && found_opening {
            assert(cp(idx as int));
            proof {
                lemma_first_from_is(o + 1, n - 1, cp, idx as int);
            }
            return Some(line_char_idx + idx);
        }
        idx += 1;
    }
    proof {
        if !found_opening {
            if x + 1 <= n - 1 {
                lemma_first_from_is(x + 1, n - 1, op, n - 1);
            }
        } else {
            lemma_first_from_is(o + 1, n - 1, cp, n - 1);
        }
    }
    None
}

/// Where a run of chars of one kind (word chars, or other non-blank chars)
/// that started with class `word` stops: at white space or a change of kind.
pub open spec fn run_stop(t: Seq<char>, word: bool) -> spec_fn(int) -> bool {
    |k: int| is_white(t[k]) || is_word(t[k]) != word
}

/// Where a run of non-blank chars stops.
pub open spec fn big_run_stop(t: Seq<char>) -> spec_fn(int) -> bool {
    |k: int| is_white(t[k])
}

/// Where skipping white space stops: at a non-blank char, or at a `\n`
/// that is followed by another `\n` (an empty line).
pub open spec fn blank_stop(t: Seq<char>) -> spec_fn(int) -> bool {
    |k: int| !is_white(t[k]) || (t[k] == '\n' && k + 1 < t.len() && t[k + 1] == '\n')
}

/// Skipping white space from `e`: the next non-blank char, or the empty line
/// that a blank stretch runs into.
pub open spec fn skip_blanks(t: Seq<char>, e: int) -> int {
    let m = first_from(e, t.len() as int, blank_stop(t));
    if m < t.len() && is_white(t[m]) {
        m + 1
    } else {
        m
    }
}

/// `w`: the start of the next word (a word being a run of word chars or a run
/// of other non-blank chars); with an action pending, a `\n` that ends the
/// current run.
pub open spec fn next_word(t: Seq<char>, idx: int, action: bool) -> int {
    if idx >= t.len() {
        idx
    } else {
        let e = first_from(idx, t.len() as int, run_stop(t, is_word(t[idx])));
        if action && t[e] == '\n' {
            e
        } else {
            skip_blanks(t, e)
        }
    }
}

/// `W`: the start of the next run of non-blank chars; with an action pending,
/// a `\n` that ends the current run.
pub open spec fn next_big_word(t: Seq<char>, idx: int, action: bool) -> int {
    if idx >= t.len() {
        idx
    } else {
        let e = first_from(idx, t.len() as int, big_run_stop(t));
        if action && t[e] == '\n' {
            e
        } else {
            skip_blanks(t, e)
        }
    }
}

/// Skips white space from `idx` but stops on an empty line.
fn skip_blank_run(rope: &Rope, from: usize, len: usize) -> (r: usize)
    requires
        len == rope_text(*rope).len(),
        from <= len,
    ensures
        r == skip_blanks(rope_text(*rope), from as int),
{
    let ghost t = rope_text(*rope);
    let ghost p = blank_stop(t);
    let mut idx = from;
    let ghost start = idx as int;
    while idx < len && is_whitespace(rope_char(rope, idx))
        invariant
            t == rope_text(*rope),
            len == t.len(),
            p == blank_stop(t),
            start == from,
            start <= idx <= len,
            forall|k: int| start <= k < idx ==> !#[trigger] p(k),
        decreases len - idx,
    {
        assert(is_white(t[idx as int]));
        if rope_char(rope, idx) == '\n' && idx + 1 < len && rope_char(rope, idx + 1) == '\n' {
            assert(p(idx as int));
            proof {
                lemma_first_from_is(start, len as int, p, idx as int);
            }
            return idx + 1;
        }
        assert(!p(idx as int));
        idx += 1;
    }
    proof {
        lemma_first_from_is(start, len as int, p, idx as int);
    }
    idx
}

/// The start of the next word (`w`); with `action` a `\n` that ends the current run.
pub fn next_word_idx(idx: usize, rope: &Rope, action: bool) -> (r: usize)
    requires
        rope_fits(rope_text(*rope)),
        !(action && idx < rope_text(*rope).len() && first_from(
            idx as int,
            rope_text(*rope).len() as int,
            run_stop(rope_text(*rope), is_word(rope_text(*rope)[idx as int])),
        ) >= rope_text(*rope).len()),
    ensures
        r == next_word(rope_text(*rope), idx as int, action),
{
    let ghost t = rope_text(*rope);
    proof {
        lemma_chars_le_bytes(t);
    }
    let mut idx = idx;
    let len = rope_len_chars(rope);
    if idx >= len {
        return idx;
    }

    // 1. Skip current type of characters (word vs non-word)
    let starting_is_alnum = {
        let c = rope_char(rope, idx);
        is_word_char(c)
    };
    let ghost start = idx as int;
    let ghost p = run_stop(t, starting_is_alnum);
    while idx < len
        invariant
            t == rope_text(*rope),
            len == t.len(),
            p == run_stop(t, starting_is_alnum),
            start <= idx <= len,
            forall|k: int| start <= k < idx ==> !#[trigger] p(k),
        ensures
            idx == len || p(idx as int),
        decreases len - idx,
    {
        let c = rope_char(rope, idx);
        if is_whitespace(c) {
            break;
        }
        let current_is_alnum = is_word_char(c);
        if current_is_alnum != starting_is_alnum {
            break;
        }
        idx += 1;
    }
    proof {
        lemma_first_from_is(start, len as int, p, idx as int);
    }

    if action && rope_char(rope, idx) == '\n' {
        return idx;
    }

    // 2. Skip whitespace but stop on empty lines
    skip_blank_run(rope, idx, len)
}

/// The start of the next run of non-blank chars (`W`); with `action` a `\n`
/// that ends the current run.
pub fn upper_word_idx(idx: usize, rope: &Rope, action: bool) -> (r: usize)
    requires
        rope_fits(rope_text(*rope)),
        !(action && idx < rope_text(*rope).len() && first_from(
            idx as int,
            rope_text(*rope).len() as int,
            big_run_stop(rope_text(*rope)),
        ) >= rope_text(*rope).len()),
    ensures
        r == next_big_word(rope_text(*rope), idx as int, action),
{
    let ghost t = rope_text(*rope);
    proof {
        lemma_chars_le_bytes(t);
    }
    let mut idx = idx;
    let len = rope_len_chars(rope);
    if idx >= len {
        return idx;
    }

    // 1. Skip non-whitespace
    let ghost start = idx as int;
    let ghost p = big_run_stop(t);
    while idx < len && !is_whitespace(rope_char(rope, idx))
        invariant
            t == rope_text(*rope),
            len == t.len(),
            p == big_run_stop(t),
            start <= idx <= len,
            forall|k: int| start <= k < idx ==> !#[trigger] p(k),
        decreases len - idx,
    {
        assert(!p(idx as int));
        idx += 1;
    }
    proof {
        lemma_first_from_is(start, len as int, p, idx as int);
    }

    if action && rope_char(rope, idx) == '\n' {
        return idx;
    }

    // 2. Skip whitespace but stop on empty lines
    skip_blank_run(rope, idx, len)
}

/// The last index of the range that the inner-word object may reach: the
/// char before the last one, or the start itself when that lies beyond.
pub open spec fn object_end(t: Seq<char>, ci: int, stop: spec_fn(int) -> bool) -> int {
    if ci + 1 >= t.len() - 1 {
        ci
    } else {
        min_int(first_from(ci + 1, t.len() - 1, stop), t.len() - 2)
    }
}

/// The word under the cursor (`iw`): its first and last index; on white space,
/// the range `ci..ci + 1`.
pub open spec fn word_around(t: Seq<char>, ci: int) -> (int, int) {
    if is_white(t[ci]) {
        (ci, ci + 1)
    } else {
        let word = is_word(t[ci]);
        (
            scan_down(0, ci, |k: int| !is_white(t[k - 1]) && is_word(t[k - 1]) == word),
            object_end(t, ci, run_stop(t, word)),
        )
    }
}

/// The run of non-blank chars under the cursor (`iW`): its first and last
/// index; on white space, the range `ci..ci + 1`.
pub open spec fn big_word_around(t: Seq<char>, ci: int) -> (int, int) {
    if is_white(t[ci]) {
        (ci, ci + 1)
    } else {
        (scan_down(0, ci, |k: int| !is_white(t[k - 1])), object_end(t, ci, big_run_stop(t)))
    }
}

/// Scans forward from `ci` to the last char of the object, stopping before the
/// last char of the text.
fn object_end_idx(rope: &Rope, ci: usize, len: usize, word: bool, classes: bool) -> (r: usize)
    requires
        len == rope_text(*rope).len(),
        ci < len,
    ensures
        classes ==> r == object_end(rope_text(*rope), ci as int, run_stop(rope_text(*rope), word)),
        !classes ==> r == object_end(rope_text(*rope), ci as int, big_run_stop(rope_text(*rope))),
{
    let ghost t = rope_text(*rope);
    let ghost p = if classes { run_stop(t, word) } else { big_run_stop(t) };
    let mut end_idx = ci;
    while end_idx + 1 < len - 1
        invariant_except_break
            forall|k: int| ci + 1 <= k <= end_idx ==> !#[trigger] p(k),
        invariant
            t == rope_text(*rope),
            len == t.len(),
            ci < len,
            p == if classes { run_stop(t, word) } else { big_run_stop(t) },
            ci <= end_idx,
            ci + 1 < len - 1 ==> end_idx <= len - 2,
            ci + 1 >= len - 1 ==> end_idx == ci,
            forall|k: int| ci + 1 <= k < end_idx ==> !#[trigger] p(k),
        ensures
            (end_idx + 1 >= len - 1 && forall|k: int| ci + 1 <= k <= end_idx ==> !#[trigger] p(k))
                || (ci + 1 <= end_idx && end_idx < len - 1 && p(end_idx as int)),
        decreases len - end_idx,
    {
        end_idx += 1;
        let c = rope_char(rope, end_idx);
        if is_whitespace(c) || c == '\n' {
            assert(p(end_idx as int));
            break;
        }
        if classes {
            let is_alnum = is_word_char(c);
            if is_alnum != word {
                assert(p(end_idx as int));
                break;
            }
        }
        assert(!p(end_idx as int));
    }
    proof {
        if ci + 1 < len - 1 {
            if ci + 1 <= end_idx && end_idx < len - 1 && p(end_idx as int) {
                lemma_first_from_is(ci + 1, len - 1, p, end_idx as int);
            } else {
                lemma_first_from_is(ci + 1, len - 1, p, len - 1);
            }
        }
    }
    end_idx
}

/// The word under the cursor (`iw`): its first and last index.
pub fn inside_word(char_idx: usize, rope: &Rope) -> (r: (usize, usize))
    requires
        char_idx < rope_text(*rope).len(),
        rope_fits(rope_text(*rope)),
    ensures
        (r.0 as int, r.1 as int) == word_around(rope_text(*rope), char_idx as int),
{
    let ghost t = rope_text(*rope);
    proof {
        lemma_chars_le_bytes(t);
    }
    let mut start_idx = char_idx;
    let mut end_idx = char_idx;
    if is_whitespace(rope_char(rope, char_idx)) {
        end_idx += 1;
        return (start_idx, end_idx);
    }
    let starting_is_alnum = {
        let c = rope_char(rope, char_idx);
        is_word_char(c)
    };
    let ghost p = |k: int| !is_white(t[k - 1]) && is_word(t[k - 1]) == starting_is_alnum;

    // get start idx
    while start_idx > 0
        invariant
            t == rope_text(*rope),
            char_idx < t.len(),
            p == (|k: int| !is_white(t[k - 1]) && is_word(t[k - 1]) == starting_is_alnum),
            start_idx <= char_idx,
            forall|m: int| start_idx < m <= char_idx ==> #[trigger] p(m),
        ensures
            start_idx == 0 || !p(start_idx as int),
        decreases start_idx,
    {
        let prev = rope_char(rope, start_idx - 1);
        if is_whitespace(prev) || prev == '\n' {
            break;
        }
        let prev_is_alnum = is_word_char(prev);
        if prev_is_alnum != starting_is_alnum {
            break;
        }
        assert(p(start_idx as int));
        start_idx -= 1;
    }
    proof {
        lemma_scan_down_is(0, char_idx as int, p, start_idx as int);
    }

    // get end idx
    let len = rope_len_chars(rope);
    end_idx = object_end_idx(rope, char_idx, len, starting_is_alnum, true);

    (start_idx, end_idx)
}

/// The run of non-blank chars under the cursor (`iW`): its first and last index.
pub fn inside_upper_word(char_idx: usize, rope: &Rope) -> (r: (usize, usize))
    requires
        char_idx < rope_text(*rope).len(),
        rope_fits(rope_text(*rope)),
    ensures
        (r.0 as int, r.1 as int) == big_word_around(rope_text(*rope), char_idx as int),
{
    let ghost t = rope_text(*rope);
    proof {
        lemma_chars_le_bytes(t);
    }
    let mut start_idx = char_idx;
    let mut end_idx = char_idx;
    if is_whitespace(rope_char(rope, char_idx)) {
        end_idx += 1;
        return (start_idx, end_idx);
    }
    let ghost p = |k: int| !is_white(t[k - 1]);

    // get start idx
    while start_idx > 0
        invariant
            t == rope_text(*rope),
            char_idx < t.len(),
            p == (|k: int| !is_white(t[k - 1])),
            start_idx <= char_idx,
            forall|m: int| start_idx < m <= char_idx ==> #[trigger] p(m),
        ensures
            start_idx == 0 || !p(start_idx as int),
        decreases start_idx,
    {
        let prev = rope_char(rope, start_idx - 1);
        if is_whitespace(prev) || prev == '\n' {
            break;
        }
        assert(p(start_idx as int));
        start_idx -= 1;
    }
    proof {
        lemma_scan_down_is(0, char_idx as int, p, start_idx as int);
    }

    // get end idx
    let len = rope_len_chars(rope);
    end_idx = object_end_idx(rope, char_idx, len, false, false);

    (start_idx, end_idx)
}

/// Where the end of a word is: the char before one that is white space or
/// of another kind than the word's first char `t[a]`.
pub open spec fn end_stop(t: Seq<char>, a: int, classes: bool) -> spec_fn(int) -> bool {
    |k: int| is_white(t[k + 1]) || (classes && is_word(t[k + 1]) != is_word(t[a]))
}

/// `e` (`classes`) or `E` (without): the end of the word that starts after
/// the cursor's char once white space is skipped.
pub open spec fn word_end(t: Seq<char>, idx: int, classes: bool) -> int {
    if idx + 1 >= t.len() {
        idx
    } else {
        let a = first_from(idx + 1, t.len() as int, |k: int| !is_white(t[k]));
        if a >= t.len() {
            a
        } else {
            first_from(a, t.len() - 1, end_stop(t, a, classes))
        }
    }
}

fn word_end_scan(idx: usize, rope: &Rope, classes: bool) -> (r: usize)
    requires
        rope_fits(rope_text(*rope)),
        idx < usize::MAX,
    ensures
        r == word_end(rope_text(*rope), idx as int, classes),
{
    let ghost t = rope_text(*rope);
    proof {
        lemma_chars_le_bytes(t);
    }
    let mut idx = idx;
    let len = rope_len_chars(rope);
    if idx + 1 >= len {
        return idx;
    }

    // 1. Move off current position
    idx += 1;

    // 2. Skip whitespace
    let ghost start = idx as int;
    let ghost q = |k: int| !is_white(t[k]);
    while idx < len && is_whitespace(rope_char(rope, idx))
        invariant
            t == rope_text(*rope),
            len == t.len(),
            q == (|k: int| !is_white(t[k])),
            start <= idx <= len,
            forall|k: int| start <= k < idx ==> !#[trigger] q(k),
        decreases len - idx,
    {
        assert(!q(idx as int));
        idx += 1;
    }
    proof {
        lemma_first_from_is(start, len as int, q, idx as int);
    }

    if idx >= len {
        return idx;
    }

    // 3. Consume the word: stop when the type changes
    let ghost a = idx as int;
    let ghost p = end_stop(t, a, classes);
    let starting_is_alnum = {
        let c = rope_char(rope, idx);
        is_word_char(c)
    };
    while idx + 1 < len
        invariant
            t == rope_text(*rope),
            len == t.len(),
            0 <= a < len,
            starting_is_alnum == is_word(t[a]),
            p == end_stop(t, a, classes),
            a <= idx <= len - 1,
            forall|k: int| a <= k < idx ==> !#[trigger] p(k),
        ensures
            idx + 1 >= len || p(idx as int),
        decreases len - idx,
    {
        let next = rope_char(rope, idx + 1);
        if is_whitespace(next) {
            break;
        }
        if classes {
            let next_is_alnum = is_word_char(next);
            if next_is_alnum != starting_is_alnum {
                break;
            }
        }
        assert(!p(idx as int));
        idx += 1;
    }
    proof {
        lemma_first_from_is(a, len - 1, p, idx as int);
    }
    idx
}

/// The end of the next word (`e`).
pub fn word_end_idx(idx: usize, rope: &Rope) -> (r: usize)
    requires
        rope_fits(rope_text(*rope)),
        idx < usize::MAX,
    ensures
        r == word_end(rope_text(*rope), idx as int, true),
{
    word_end_scan(idx, rope, true)
}

/// The end of the next run of non-blank chars (`E`).
pub fn upper_word_end_idx(idx: usize, rope: &Rope) -> (r: usize)
    requires
        rope_fits(rope_text(*rope)),
        idx < usize::MAX,
    ensures
        r == word_end(rope_text(*rope), idx as int, false),
{
    word_end_scan(idx, rope, false)
}

/// A space or a tab.
pub open spec fn is_space_or_tab(c: char) -> bool {
    c == ' ' || c == '\t'
}

/// Where a backward word motion lands once it has left the cursor and
/// skipped spaces and tabs: the index, and whether an empty line stopped it.
pub open spec fn back_landing(t: Seq<char>, idx: int) -> (int, bool) {
    let i1 = scan_down(0, idx - 1, |k: int| is_space_or_tab(t[k]));
    let i2 = scan_down(0, i1, |k: int| t[k] == '\n' && t[k - 1] != '\n');
    (i2, i2 > 0 && t[i2] == '\n')
}

/// `b` (`classes`) or `B` (without): the start of the word before the cursor;
/// an empty line on the way stops the motion.
pub open spec fn back_word(t: Seq<char>, idx: int, classes: bool) -> int {
    if idx == 0 {
        0
    } else {
        let (i2, empty_line) = back_landing(t, idx);
        if empty_line {
            i2
        } else {
            scan_down(
                0,
                i2,
                |k: int| !is_white(t[k - 1]) && (!classes || is_word(t[k - 1]) == is_word(t[i2])),
            )
        }
    }
}

fn back_word_scan(idx: usize, rope: &Rope, classes: bool) -> (r: usize)
    requires
        idx <= rope_text(*rope).len(),
    ensures
        r == back_word(rope_text(*rope), idx as int, classes),
{
    let ghost t = rope_text(*rope);
    if idx == 0 {
        return 0;
    }
    let ghost orig = idx as int;
    let mut idx = idx;

    // 1. Move off current position
    idx -= 1;

    // 2. Skip spaces/tabs but stop at newlines
    let ghost k1 = idx as int;
    let ghost p1 = |k: int| is_space_or_tab(t[k]);
    while idx > 0 && (rope_char(rope, idx) == ' ' || rope_char(rope, idx) == '\t')
        invariant
            t == rope_text(*rope),
            k1 < t.len(),
            p1 == (|k: int| is_space_or_tab(t[k])),
            idx <= k1,
            forall|m: int| idx < m <= k1 ==> #[trigger] p1(m),
        decreases idx,
    {
        assert(p1(idx as int));
        idx -= 1;
    }
    proof {
        lemma_scan_down_is(0, k1, p1, idx as int);
    }
    let ghost i1 = idx as int;

    // 3. If we're on a newline, check if the previous line is empty (stop) or skip it
    let ghost p2 = |k: int| t[k] == '\n' && t[k - 1] != '\n';
    while idx > 0 && rope_char(rope, idx) == '\n'
        invariant
            t == rope_text(*rope),
            i1 < t.len(),
            p2 == (|k: int| t[k] == '\n' && t[k - 1] != '\n'),
            idx <= i1,
            forall|m: int| idx < m <= i1 ==> #[trigger] p2(m),
        ensures
            idx == 0 || !p2(idx as int),
        decreases idx,
    {
        let prev = rope_char(rope, idx - 1);
        if prev == '\n' {
            break;
        }
        assert(p2(idx as int));
        idx -= 1;
    }
    proof {
        lemma_scan_down_is(0, i1, p2, idx as int);
    }
    if idx > 0 && rope_char(rope, idx) == '\n' {
        // an empty line: stop here
        return idx;
    }
    let ghost i2 = idx as int;

    // 4. Consume chars of the same kind going backwards
    let starting_is_alnum = {
        let c = rope_char(rope, idx);
        is_word_char(c)
    };
    let ghost p3 = |k: int| !is_white(t[k - 1]) && (!classes || is_word(t[k - 1]) == is_word(t[i2]));
    while idx > 0
        invariant
            t == rope_text(*rope),
            0 <= i2 < t.len(),
            starting_is_alnum == is_word(t[i2]),
            p3 == (|k: int| !is_white(t[k - 1]) && (!classes || is_word(t[k - 1]) == is_word(t[i2]))),
            idx <= i2,
            forall|m: int| idx < m <= i2 ==> #[trigger] p3(m),
        ensures
            idx == 0 || !p3(idx as int),
        decreases idx,
    {
        let prev = rope_char(rope, idx - 1);
        if is_whitespace(prev) {
            break;
        }
        if classes {
            let prev_is_alnum = is_word_char(prev);
            if prev_is_alnum != starting_is_alnum {
                break;
            }
        }
        assert(p3(idx as int));
        idx -= 1;
    }
    proof {
        lemma_scan_down_is(0, i2, p3, idx as int);
    }
    idx
}

/// The start of the word before the cursor (`b`).
pub fn prev_word_idx(idx: usize, rope: &Rope) -> (r: usize)
    requires
        idx <= rope_text(*rope).len(),
    ensures
        r == back_word(rope_text(*rope), idx as int, true),
{
    back_word_scan(idx, rope, true)
}

/// The start of the run of non-blank chars before the cursor (`B`).
pub fn upper_back_word_idx(idx: usize, rope: &Rope) -> (r: usize)
    requires
        idx <= rope_text(*rope).len(),
    ensures
        r == back_word(rope_text(*rope), idx as int, false),
{
    back_word_scan(idx, rope, false)
}

/// `}`: the start of the first empty line after the line of `idx`, or of the
/// last line when there is none.
pub open spec fn next_empty_line(t: Seq<char>, idx: int) -> int {
    let y = first_from(breaks_before(t, idx) as int + 1, line_count(t) as int, |k: int| line_len(t, k) == 1);
    if y < line_count(t) {
        line_start(t, y)
    } else {
        line_start(t, line_count(t) - 1)
    }
}

/// `{`: the start of the last empty line before the line of `idx`, or of the
/// first line when there is none.
pub open spec fn prev_empty_line(t: Seq<char>, idx: int) -> int {
    line_start(
        t,
        scan_down(0, sat_sub(breaks_before(t, idx) as int, 1), |k: int| line_len(t, k) != 1),
    )
}

/// The start of the next empty line (`}`).
pub fn next_empty_line_idx(idx: usize, rope: &Rope) -> (r: usize)
    requires
        idx <= rope_text(*rope).len(),
        rope_fits(rope_text(*rope)),
    ensures
        r == next_empty_line(rope_text(*rope), idx as int),
{
    let ghost t = rope_text(*rope);
    let ghost p = |k: int| line_len(t, k) == 1;
    proof {
        lemma_char_line(t, idx as int);
    }
    let mut y = rope_char_to_line(rope, idx);
    let ghost y0 = y as int;
    loop
        invariant_except_break
            y < line_count(t),
            forall|k: int| y0 + 1 <= k <= y ==> !#[trigger] p(k),
        invariant
            t == rope_text(*rope),
            rope_fits(t),
            p == (|k: int| line_len(t, k) == 1),
            y0 == breaks_before(t, idx as int),
            y0 < line_count(t),
            y0 <= y <= line_count(t),
            forall|k: int| y0 + 1 <= k < y ==> !#[trigger] p(k),
        ensures
            y0 < y < line_count(t),
            p(y as int),
        decreases line_count(t) - y,
    {
        y += 1;
        if let Some(line) = rope_get_line(rope, y) {
            proof {
                lemma_line_bounds(t, y as int);
            }
            if is_empty_line(&line) {
                break;
            }
        } else {
            proof {
                lemma_first_from_is(y0 + 1, line_count(t) as int, p, y as int);
            }
            return rope_line_to_char(rope, y - 1);
        }
    }
    proof {
        lemma_first_from_is(y0 + 1, line_count(t) as int, p, y as int);
    }
    rope_line_to_char(rope, y)
}

/// The start of the previous empty line (`{`).
pub fn prev_empty_line_idx(idx: usize, rope: &Rope) -> (r: usize)
    requires
        idx <= rope_text(*rope).len(),
    ensures
        r == prev_empty_line(rope_text(*rope), idx as int),
{
    let ghost t = rope_text(*rope);
    let ghost p = |k: int| line_len(t, k) != 1;
    proof {
        lemma_char_line(t, idx as int);
    }
    let mut y = rope_char_to_line(rope, idx);
    let ghost y0 = y as int;
    let ghost k0 = sat_sub(y as int, 1);
    loop
        invariant_except_break
            y == y0 || p(y as int),
        invariant
            t == rope_text(*rope),
            p == (|k: int| line_len(t, k) != 1),
            y0 < line_count(t),
            k0 == sat_sub(y0, 1),
            y <= y0,
            forall|m: int| y < m <= k0 ==> #[trigger] p(m),
        ensures
            y <= k0,
            y == 0 || !p(y as int),
            forall|m: int| y < m <= k0 ==> #[trigger] p(m),
        decreases y,
    {
        let ghost prev_y = y;
        y = y.saturating_sub(1);
        if let Some(line) = rope_get_line(rope, y) {
            proof {
                lemma_line_bounds(t, y as int);
            }
            if is_empty_line(&line) || y == 0 {
                break;
            }
        } else {
            return 0;
        }
        assert(p(y as int));
    }
    proof {
        lemma_scan_down_is(0, k0, p, y as int);
    }
    rope_line_to_char(rope, y)
}

/// A char of a line's leading indentation: white space other than `\n` and `\r`.
pub open spec fn is_lead_blank(c: char) -> bool {
    is_white(c) && c != '\n' && c != '\r'
}

/// The leading indentation of a line.
pub open spec fn leading_blanks(l: Seq<char>) -> Seq<char> {
    l.take(first_from(0, l.len() as int, |k: int| !is_lead_blank(l[k])))
}

pub(crate) fn leading_whitespace(line: &RopeSlice) -> (r: String)
    ensures
        r@ == leading_blanks(slice_text(*line)),
{
    let ghost l = slice_text(*line);
    let ghost p = |k: int| !is_lead_blank(l[k]);
    let n = slice_len_chars(line);
    let mut whitespace = String::new();
    let mut i: usize = 0;
    while i < n
        invariant
            l == slice_text(*line),
            n == l.len(),
            p == (|k: int| !is_lead_blank(l[k])),
            i <= n,
            whitespace@ == l.take(i as int),
            forall|k: int| 0 <= k < i ==> !#[trigger] p(k),
        ensures
            i == n || p(i as int),
        decreases n - i,
    {
        let c = slice_char(line, i);
        if !(is_whitespace(c) && c != '\n' && c != '\r') {
            break;
        }
        push_char(&mut whitespace, c);
        assert(l.take(i + 1) == l.take(i as int).push(c));
        i += 1;
    }
    proof {
        lemma_first_from_is(0, n as int, p, i as int);
    }
    whitespace
}

/// Where `o` inserts the new line below line `y` (before the line's break,
/// or at its end when it has none) and the indentation that the new line gets.
pub open spec fn new_line_below(t: Seq<char>, y: int) -> (int, Seq<char>) {
    let l = line_text(t, y);
    let has_newline = l.len() > 0 && (l[l.len() - 1] == '\n' || l[l.len() - 1] == '\r');
    (
        if has_newline {
            line_start(t, y) + l.len() - 1
        } else {
            line_start(t, y) + l.len()
        },
        leading_blanks(l),
    )
}

/// Where `o` inserts a new line below the cursor's line, and its indentation.
pub fn new_line_below_idx(cursor_pos: &CursorPos, rope: &Rope) -> (r: (usize, String))
    requires
        cursor_pos.y < line_count(rope_text(*rope)),
        rope_fits(rope_text(*rope)),
    ensures
        (r.0 as int, r.1@) == new_line_below(rope_text(*rope), cursor_pos.y as int),
{
    let ghost t = rope_text(*rope);
    proof {
        lemma_line_bounds(t, cursor_pos.y as int);
        lemma_chars_le_bytes(t);
    }
    let y = cursor_pos.y;
    let current_line = rope_line(rope, y);

    // 1. Get leading whitespace
    let whitespace = leading_whitespace(&current_line);

    // 2. Find the end of the current line TEXT (before the \n)
    let line_start_char = rope_line_to_char(rope, y);
    let line_len = slice_len_chars(&current_line);

    // We want to skip the \n at the end of the current line if it exists
    let has_newline = if line_len > 0 {
        let c = slice_char(&current_line, line_len - 1);
        c == '\n' || c == '\r'
    } else {
        false
    };
    let insert_pos = if has_newline {
        line_start_char + line_len.saturating_sub(1)
    } else {
        line_start_char + line_len
    };

    (insert_pos, whitespace)
}

/// Where `O` inserts a new line above the cursor's line (its start), and its indentation.
pub fn new_line_above_idx(cursor_pos: &CursorPos, rope: &Rope) -> (r: (usize, String))
    requires
        cursor_pos.y < line_count(rope_text(*rope)),
    ensures
        r.0 == line_start(rope_text(*rope), cursor_pos.y as int),
        r.1@ == leading_blanks(line_text(rope_text(*rope), cursor_pos.y as int)),
{
    let y = cursor_pos.y;

    // 1. Get leading whitespace from the current line
    let current_line = rope_line(rope, y);
    let whitespace = leading_whitespace(&current_line);

    // 2. Find the start of the current line
    let line_start_char = rope_line_to_char(rope, y);

    (line_start_char, whitespace)
}

/// `f`/`t` (forwards) and `F`/`T` (backwards) on the cursor's line: the next
/// (or previous) `query`, or the char just before (after) it when not `inclusive`.
pub open spec fn is_query_at(t: Seq<char>, y: int, query: char) -> spec_fn(int) -> bool {
    |k: int| line_text(t, y)[k] == query
}

pub open spec fn char_inline(t: Seq<char>, y: int, x: int, query: char, forwards: bool, inclusive: bool) -> Option<int> {
    let ls = line_start(t, y);
    if forwards {
        let m = first_from(x + 1, line_len(t, y), is_query_at(t, y, query));
        if m < line_len(t, y) {
            Some(if inclusive { ls + m } else { ls + m - 1 })
        } else {
            None
        }
    } else {
        let m = last_from(0, x, is_query_at(t, y, query));
        if m >= 0 {
            Some(if inclusive { ls + m } else { ls + m + 1 })
        } else {
            None
        }
    }
}

/// Finds `query` on the cursor's line, after (or before) the cursor.
pub fn find_char_inline(
    cursor_pos: &CursorPos,
    rope: &Rope,
    query: char,
    forwards: bool,
    inclusive: bool,
) -> (r: Option<usize>)
    requires
        cursor_pos.y < line_count(rope_text(*rope)),
        forwards ==> cursor_pos.x < usize::MAX,
        !forwards ==> cursor_pos.x <= line_len(rope_text(*rope), cursor_pos.y as int),
        rope_fits(rope_text(*rope)),
    ensures
        opt_int(r) == char_inline(
            rope_text(*rope),
            cursor_pos.y as int,
            cursor_pos.x as int,
            query,
            forwards,
            inclusive,
        ),
{
    let ghost t = rope_text(*rope);
    let ghost y = cursor_pos.y as int;
    let ghost x = cursor_pos.x as int;
    proof {
        lemma_line_bounds(t, y);
        lemma_chars_le_bytes(t);
    }
    let line_char_idx = rope_line_to_char(rope, cursor_pos.y);
    let line = rope_line(rope, cursor_pos.y);
    let ghost p = is_query_at(t, y, query);
    let mut idx = cursor_pos.x;
    let n = slice_len_chars(&line);

    if forwards {
        idx += 1;
        while idx < n
            invariant
                t == rope_text(*rope),
                x == cursor_pos.x,
                y == cursor_pos.y,
                slice_text(line) == line_text(t, y),
                line_char_idx == line_start(t, y),
                n == line_len(t, y),
                p == (is_query_at(t, y, query)),
                line_char_idx + n <= t.len() <= usize::MAX,
                forwards,
                x + 1 <= idx,
                x + 1 < n ==> idx <= n,
                x + 1 >= n ==> idx == x + 1,
                forall|k: int| x + 1 <= k < idx ==> !#[trigger] p(k),
            decreases n - idx,
        {
            let c = slice_char(&line, idx);
            if c == query {
                assert(p(idx as int));
                proof {
                    lemma_first_from_is(x + 1, n as int, p, idx as int);
                }
                if inclusive {
                    return Some(line_char_idx + idx);
                } else {
                    return Some(line_char_idx + idx - 1);
                }
            }
            assert(!p(idx as int));
            idx += 1;
        }
        proof {
            if x + 1 < n {
                lemma_first_from_is(x + 1, n as int, p, idx as int);
            }
        }
    } else {
        while idx > 0
            invariant
                t == rope_text(*rope),
                x == cursor_pos.x,
                y == cursor_pos.y,
                slice_text(line) == line_text(t, y),
                line_char_idx == line_start(t, y),
                n == line_len(t, y),
                p == (is_query_at(t, y, query)),
                line_char_idx + n <= t.len() <= usize::MAX,
                !forwards,
                idx <= x <= n,
                forall|k: int| idx <= k < x ==> !#[trigger] p(k),
            decreases idx,
        {
            idx -= 1;
            let c = slice_char(&line, idx);
            if c == query {
                assert(p(idx as int));
                proof {
                    lemma_last_from_is(0, x, p, idx as int);
                }
                if inclusive {
                    return Some(line_char_idx + idx);
                } else {
                    return Some(line_char_idx + idx + 1);
                }
            }
            assert(!p(idx as int));
        }
        proof {
            lemma_last_from_is(0, x, p, -1);
        }
    }

    None
}

/// Pairs up the `quote` chars of `l[..n]` in order: the closed pairs, and
/// the position of a quote still waiting for its partner.
pub open spec fn quote_scan(l: Seq<char>, quote: char, n: int) -> (Seq<(int, int)>, Option<int>)
    decreases n,
{
    if n <= 0 {
        (seq![], None)
    } else {
        let (rs, st) = quote_scan(l, quote, n - 1);
        if l[n - 1] == quote {
            match st {
                None => (rs, Some(n - 1)),
                Some(s) => (rs.push((s, n - 1)), None),
            }
        } else {
            (rs, st)
        }
    }
}

/// The quoted ranges of a line: the first and second quote, the third and
/// fourth, and so on (as positions of the quotes).
pub open spec fn quote_ranges(l: Seq<char>, quote: char) -> Seq<(int, int)> {
    quote_scan(l, quote, l.len() as int).0
}

pub open spec fn range_covers(rs: Seq<(int, int)>, x: int) -> spec_fn(int) -> bool {
    |i: int| rs[i].0 <= x <= rs[i].1
}

pub open spec fn range_after(rs: Seq<(int, int)>, x: int) -> spec_fn(int) -> bool {
    |i: int| x <= rs[i].0
}

/// `i"` and friends: the inside of the quoted range of line `y` that holds
/// column `x`, or else of the first one after it.
pub open spec fn quotes_around(t: Seq<char>, y: int, x: int, quote: char) -> Option<(int, int)> {
    let ls = line_start(t, y);
    let rs = quote_ranges(line_text(t, y), quote);
    let i = first_from(0, rs.len() as int, range_covers(rs, x));
    if i < rs.len() {
        Some((ls + rs[i].0 + 1, ls + rs[i].1))
    } else {
        let j = first_from(0, rs.len() as int, range_after(rs, x));
        if j < rs.len() {
            Some((ls + rs[j].0 + 1, ls + rs[j].1))
        } else {
            None
        }
    }
}


/// 1 at each quote char of `l`, 0 elsewhere.
pub open spec fn quote_mark(l: Seq<char>, quote: char) -> spec_fn(int) -> int {
    |k: int| if l[k] == quote { 1int } else { 0int }
}

/// The number of quote chars among the first `n` chars of `l`.
pub open spec fn quotes_before(l: Seq<char>, quote: char, n: int) -> int {
    range_sum(0, n, quote_mark(l, quote))
}

/// The quote at `s` opens a pair that the quote at `e` closes: an even number
/// of quotes come before `s`, and none between `s` and `e`.
pub open spec fn quote_pair(l: Seq<char>, quote: char, s: int, e: int) -> bool {
    &&& 0 <= s < e < l.len()
    &&& l[s] == quote
    &&& l[e] == quote
    &&& forall|k: int| s < k < e ==> #[trigger] l[k] != quote
    &&& quotes_before(l, quote, s) % 2 == 0
}

/// No quote among `a..b` adds nothing to the count.
proof fn lemma_no_quotes(l: Seq<char>, quote: char, a: int, b: int)
    requires
        a <= b,
        forall|k: int| a <= k < b ==> #[trigger] l[k] != quote,
    ensures
        range_sum(a, b, quote_mark(l, quote)) == 0,
    decreases b - a,
{
    if a < b {
        lemma_no_quotes(l, quote, a, b - 1);
    }
}

/// What scanning the first `n` chars of `l` for quotes has found: the pairs
/// closed so far, in order, and the open quote, if any.
proof fn lemma_quote_pairs_scan(l: Seq<char>, quote: char, n: int)
    requires
        0 <= n <= l.len(),
    ensures
        ({
            let (rs, st) = quote_scan(l, quote, n);
            &&& (st is None <==> quotes_before(l, quote, n) % 2 == 0)
            &&& (st matches Some(s) ==> {
                &&& 0 <= s < n
                &&& l[s] == quote
                &&& quotes_before(l, quote, s) % 2 == 0
                &&& forall|k: int| s < k < n ==> #[trigger] l[k] != quote
                &&& forall|i: int| 0 <= i < rs.len() ==> #[trigger] rs[i].1 < s
            })
            &&& forall|i: int| 0 <= i < rs.len() ==> 0 <= #[trigger] rs[i].0 < rs[i].1 < n
            &&& forall|i: int| 0 <= i < rs.len() ==> quote_pair(l, quote, #[trigger] rs[i].0, rs[i].1)
            &&& forall|i: int, j: int| 0 <= i < j < rs.len() ==> #[trigger] rs[i].1 < #[trigger] rs[j].0
            &&& forall|a: int, b: int|
                b < n && #[trigger] quote_pair(l, quote, a, b) ==> exists|i: int| 0 <= i < rs.len() && #[trigger] rs[i] == (a, b)
        }),
    decreases n,
{
    if n > 0 {
        lemma_quote_pairs_scan(l, quote, n - 1);
        let (rs0, st0) = quote_scan(l, quote, n - 1);
        let (rs, st) = quote_scan(l, quote, n);
        let m = quote_mark(l, quote);
        assert(quotes_before(l, quote, n) == quotes_before(l, quote, n - 1) + m(n - 1));
        if l[n - 1] == quote {
            match st0 {
                None => {
                    assert(rs == rs0);
                    assert forall|i: int| 0 <= i < rs.len() implies #[trigger] rs[i].1 < n - 1 by {
                        assert(rs[i] == rs0[i]);
                        assert(0 <= rs0[i].0 < rs0[i].1 < n - 1);
                    }
                    assert forall|a: int, b: int| b < n && #[trigger] quote_pair(l, quote, a, b) implies exists|i: int|
                        0 <= i < rs.len() && #[trigger] rs[i] == (a, b) by {
                        if b == n - 1 {
                            lemma_range_sum_split(0, a, n - 1, m);
                            lemma_range_sum_low(a, n - 1, m);
                            lemma_no_quotes(l, quote, a + 1, n - 1);
                            assert(false);
                        }
                    }
                },
                Some(s0) => {
                    assert(rs == rs0.push((s0, n - 1)));
                    lemma_range_sum_split(0, s0, n - 1, m);
                    lemma_range_sum_low(s0, n - 1, m);
                    lemma_no_quotes(l, quote, s0 + 1, n - 1);
                    assert forall|i: int, j: int| 0 <= i < j < rs.len() implies #[trigger] rs[i].1 < #[trigger] rs[j].0 by {
                        if j == rs.len() - 1 {
                            assert(rs[i] == rs0[i]);
                        } else {
                            assert(rs[i] == rs0[i] && rs[j] == rs0[j]);
                        }
                    }
                    assert forall|i: int| 0 <= i < rs.len() implies 0 <= #[trigger] rs[i].0 < rs[i].1 < n
                        && quote_pair(l, quote, rs[i].0, rs[i].1) by {
                        if i < rs0.len() {
                            assert(rs[i] == rs0[i]);
                            assert(quote_pair(l, quote, rs0[i].0, rs0[i].1));
                        }
                    }
                    assert forall|a: int, b: int| b < n && #[trigger] quote_pair(l, quote, a, b) implies exists|i: int|
                        0 <= i < rs.len() && #[trigger] rs[i] == (a, b) by {
                        if b == n - 1 {
                            if a < s0 {
                                assert(l[s0] != quote);
                            } else if a > s0 {
                                assert(l[a] != quote);
                            }
                            assert(rs[rs.len() - 1] == (a, b));
                        } else {
                            let i = choose|i: int| 0 <= i < rs0.len() && #[trigger] rs0[i] == (a, b);
                            assert(rs[i] == rs0[i]);
                        }
                    }
                },
            }
        } else {
            assert(rs == rs0 && st == st0);
            assert forall|a: int, b: int| b < n && #[trigger] quote_pair(l, quote, a, b) implies exists|i: int|
                0 <= i < rs.len() && #[trigger] rs[i] == (a, b) by {
                assert(b != n - 1);
            }
        }
    }
}

/// `i"` and friends on a quote pair: the quotes of a line pair up in order
/// (the first with the second, the third with the fourth, ...), and when the
/// cursor's column lies on a pair, both quotes included, the result is the
/// inside of that pair.
pub proof fn lemma_quotes_on_pair(t: Seq<char>, y: int, x: int, quote: char, s: int, e: int)
    requires
        0 <= y < line_count(t),
        quote_pair(line_text(t, y), quote, s, e),
        s <= x <= e,
    ensures
        quotes_around(t, y, x, quote) == Some((line_start(t, y) + s + 1, line_start(t, y) + e)),
{
    let l = line_text(t, y);
    lemma_quote_pairs_scan(l, quote, l.len() as int);
    let rs = quote_ranges(l, quote);
    let i = choose|i: int| 0 <= i < rs.len() && #[trigger] rs[i] == (s, e);
    let c = range_covers(rs, x);
    assert forall|j: int| 0 <= j < i implies !#[trigger] c(j) by {
        assert(rs[j].1 < rs[i].0);
    }
    assert(c(i));
    lemma_first_from_is(0, rs.len() as int, c, i);
}


/// `i"` and friends off any quote pair: the result is the inside of the first
/// pair that starts after the cursor's column, and there is none when no pair
/// ends at or after it.
pub proof fn lemma_quotes_after(t: Seq<char>, y: int, x: int, quote: char)
    requires
        0 <= y < line_count(t),
        forall|a: int, b: int| #[trigger] quote_pair(line_text(t, y), quote, a, b) ==> !(a <= x <= b),
    ensures
        forall|s: int, e: int|
            #[trigger] quote_pair(line_text(t, y), quote, s, e) && x <= s && (forall|a: int, b: int|
                quote_pair(line_text(t, y), quote, a, b) && x <= a ==> s <= a) ==> quotes_around(t, y, x, quote) == Some(
                (line_start(t, y) + s + 1, line_start(t, y) + e),
            ),
        (forall|a: int, b: int| quote_pair(line_text(t, y), quote, a, b) ==> b < x) ==> quotes_around(t, y, x, quote)
            is None,
{
    let l = line_text(t, y);
    lemma_quote_pairs_scan(l, quote, l.len() as int);
    let rs = quote_ranges(l, quote);
    let c = range_covers(rs, x);
    let af = range_after(rs, x);
    assert forall|j: int| 0 <= j < rs.len() implies !#[trigger] c(j) by {
        assert(quote_pair(l, quote, rs[j].0, rs[j].1));
    }
    lemma_first_from_is(0, rs.len() as int, c, rs.len() as int);
    assert forall|s: int, e: int|
        #[trigger] quote_pair(l, quote, s, e) && x <= s && (forall|a: int, b: int|
            quote_pair(l, quote, a, b) && x <= a ==> s <= a) implies quotes_around(t, y, x, quote) == Some(
            (line_start(t, y) + s + 1, line_start(t, y) + e),
        ) by {
        let k = choose|i: int| 0 <= i < rs.len() && #[trigger] rs[i] == (s, e);
        assert forall|j: int| 0 <= j < k implies !#[trigger] af(j) by {
            assert(rs[j].1 < rs[k].0);
            assert(quote_pair(l, quote, rs[j].0, rs[j].1));
        }
        assert(af(k));
        lemma_first_from_is(0, rs.len() as int, af, k);
    }
    if forall|a: int, b: int| quote_pair(l, quote, a, b) ==> b < x {
        assert forall|j: int| 0 <= j < rs.len() implies !#[trigger] af(j) by {
            assert(quote_pair(l, quote, rs[j].0, rs[j].1));
        }
        lemma_first_from_is(0, rs.len() as int, af, rs.len() as int);
    }
}

pub open spec fn int_pairs(v: Seq<(usize, usize)>) -> Seq<(int, int)> {
    v.map_values(|p: (usize, usize)| (p.0 as int, p.1 as int))
}

proof fn lemma_quote_scan(l: Seq<char>, quote: char, n: int)
    requires
        0 <= n,
    ensures
        forall|i: int|
            0 <= i < quote_scan(l, quote, n).0.len() ==> 0 <= #[trigger] quote_scan(l, quote, n).0[i].0
                < quote_scan(l, quote, n).0[i].1 < n,
        quote_scan(l, quote, n).1 matches Some(s) ==> 0 <= s < n,
    decreases n,
{
    if n > 0 {
        lemma_quote_scan(l, quote, n - 1);
    }
}

/// The inside of the quoted range (quotes `quote`) on line `y` that holds
/// column `x`, or else of the first one after it.
pub fn inside_quotes(x: usize, y: usize, rope: &Rope, quote: char) -> (r: Option<(usize, usize)>)
    requires
        y < line_count(rope_text(*rope)),
        rope_fits(rope_text(*rope)),
    ensures
        opt_pair(r) == quotes_around(rope_text(*rope), y as int, x as int, quote),
{
    let ghost t = rope_text(*rope);
    proof {
        lemma_line_bounds(t, y as int);
        lemma_chars_le_bytes(t);
    }
    let line_char_idx = rope_line_to_char(rope, y);
    let line = rope_line(rope, y);
    let ghost l = slice_text(line);
    let n = slice_len_chars(&line);

    // get ranges in line
    let mut ranges: Vec<(usize, usize)> = Vec::new();
    let mut start: Option<usize> = None;
    let mut i: usize = 0;
    while i < n
        invariant
            l == slice_text(line),
            n == l.len(),
            i <= n,
            int_pairs(ranges@) == quote_scan(l, quote, i as int).0,
            opt_int(start) == quote_scan(l, quote, i as int).1,
        decreases n - i,
    {
        let c = slice_char(&line, i);
        if c == quote {
            if let Some(s) = start {
                ranges.push((s, i));
                start = None;
                assert(int_pairs(ranges@) == quote_scan(l, quote, i + 1).0);
            } else {
                start = Some(i);
            }
        }
        i += 1;
    }
    let ghost rs = quote_ranges(l, quote);
    proof {
        lemma_quote_scan(l, quote, n as int);
    }

    // check if cursor is in a range
    let ghost cov = range_covers(rs, x as int);
    let mut k: usize = 0;
    while k < ranges.len()
        invariant
            int_pairs(ranges@) == rs,
            rs == quote_ranges(l, quote),
            t == rope_text(*rope),
            l == line_text(t, y as int),
            line_char_idx == line_start(t, y as int),
            n == l.len(),
            line_char_idx + n <= t.len() <= usize::MAX,
            forall|i: int| 0 <= i < rs.len() ==> 0 <= #[trigger] rs[i].0 < rs[i].1 < n,
            cov == range_covers(rs, x as int),
            k <= ranges.len(),
            forall|m: int| 0 <= m < k ==> !#[trigger] cov(m),
        decreases ranges.len() - k,
    {
        let (s, e) = ranges[k];
        assert(rs[k as int] == (s as int, e as int));
        if x >= s && x <= e {
            proof {
                lemma_first_from_is(0, rs.len() as int, cov, k as int);
            }
            return Some((line_char_idx + s + 1, line_char_idx + e));
        }
        k += 1;
    }
    proof {
        lemma_first_from_is(0, rs.len() as int, cov, k as int);
    }

    // return the next range from the cursor
    let ghost aft = range_after(rs, x as int);
    let mut k: usize = 0;
    while k < ranges.len()
        invariant
            int_pairs(ranges@) == rs,
            rs == quote_ranges(l, quote),
            t == rope_text(*rope),
            l == line_text(t, y as int),
            line_char_idx == line_start(t, y as int),
            n == l.len(),
            line_char_idx + n <= t.len() <= usize::MAX,
            forall|i: int| 0 <= i < rs.len() ==> 0 <= #[trigger] rs[i].0 < rs[i].1 < n,
            aft == range_after(rs, x as int),
            first_from(0, rs.len() as int, range_covers(rs, x as int)) == rs.len(),
            k <= ranges.len(),
            forall|m: int| 0 <= m < k ==> !#[trigger] aft(m),
        decreases ranges.len() - k,
    {
        let (s, e) = ranges[k];
        assert(rs[k as int] == (s as int, e as int));
        if x <= s {
            proof {
                lemma_first_from_is(0, rs.len() as int, aft, k as int);
            }
            return Some((line_char_idx + s + 1, line_char_idx + e));
        }
        k += 1;
    }
    proof {
        lemma_first_from_is(0, rs.len() as int, aft, k as int);
    }

    None
}

/// A search hit in line `y`: where the first occurrence of `q` in it starts
/// (the line's start plus the hit's byte offset in the line).
pub open spec fn line_hit(t: Seq<char>, q: Seq<char>, y: int) -> Option<int> {
    match find_in(line_text(t, y), q) {
        Some(b) => Some(line_start(t, y) + b),
        None => None,
    }
}

/// The hit in the first of the lines `lo..hi` (that exist) that has one.
pub open spec fn first_line_hit(t: Seq<char>, q: Seq<char>, lo: int, hi: int) -> Option<int>
    decreases hi - lo,
{
    if lo >= hi || lo >= line_count(t) {
        None
    } else {
        match line_hit(t, q, lo) {
            Some(v) => Some(v),
            None => first_line_hit(t, q, lo + 1, hi),
        }
    }
}

/// `n`: the next match of `q` after `ci`: first later on the cursor's line
/// (searched in the `ci + 1 .. ci + line length` window), then in the lines
/// after it up to the range's end, then from the range's start down to the
/// cursor's line. Offsets within a searched piece are counted in bytes.
pub open spec fn next_search_result(t: Seq<char>, ci: int, q: Seq<char>, rng: Option<(int, int)>) -> Option<int> {
    let y0 = breaks_before(t, ci) as int;
    let start = ci + 1;
    let end = ci + line_len(t, y0);
    let here = if start <= end && end <= t.len() {
        match find_in(t.subrange(start, end), q) {
            Some(b) => Some(start + b),
            None => None,
        }
    } else {
        None
    };
    if here is Some {
        here
    } else {
        let (lo, hi) = match rng {
            Some(r) => r,
            None => (0, sat_sub(line_count(t) as int, 1)),
        };
        match first_line_hit(t, q, y0 + 1, hi) {
            Some(v) => Some(v),
            None => first_line_hit(t, q, lo, y0 + 1),
        }
    }
}

/// In a piece of `t` made of one-byte chars, what `str::find` answers is
/// where the query occurs, as an index of `t`.
proof fn lemma_ascii_hit(t: Seq<char>, lo: int, hi: int, q: Seq<char>)
    requires
        is_ascii_chars(t),
        0 <= lo <= hi <= t.len(),
        find_in(t.subrange(lo, hi), q) is Some,
    ensures
        occurs_at(t, q, lo + find_in(t.subrange(lo, hi), q)->Some_0),
{
    let s = t.subrange(lo, hi);
    let n = s.len() - q.len() + 1;
    lemma_first_from(0, n, occurs(s, q));
    let p = first_from(0, n, occurs(s, q));
    assert(occurs(s, q)(p));
    assert(is_ascii_chars(s.take(p))) by {
        assert forall|i: int| 0 <= i < s.take(p).len() implies '\0' <= #[trigger] s.take(p)[i] <= '\u{7f}' by {
            assert(s.take(p)[i] == t[lo + i]);
        }
    }
    is_ascii_chars_encode_utf8(s.take(p));
    assert(t.subrange(lo + p, lo + p + q.len()) =~= s.subrange(p, p + q.len()));
}

/// A hit of `first_line_hit` is the hit of one of the lines of the text.
proof fn lemma_first_line_hit(t: Seq<char>, q: Seq<char>, lo: int, hi: int)
    requires
        0 <= lo,
        first_line_hit(t, q, lo, hi) is Some,
    ensures
        exists|y: int| 0 <= y < line_count(t) && #[trigger] line_hit(t, q, y) == first_line_hit(t, q, lo, hi),
    decreases hi - lo,
{
    if line_hit(t, q, lo) is Some {
        assert(line_hit(t, q, lo) == first_line_hit(t, q, lo, hi));
    } else {
        lemma_first_line_hit(t, q, lo + 1, hi);
    }
}

/// On a text of one-byte chars, where `n` goes the query occurs.
pub proof fn lemma_search_result_is_match(t: Seq<char>, ci: int, q: Seq<char>, rng: Option<(int, int)>)
    requires
        is_ascii_chars(t),
        0 <= ci <= t.len(),
        rng matches Some(r) ==> r.0 >= 0,
        next_search_result(t, ci, q, rng) is Some,
    ensures
        occurs_at(t, q, next_search_result(t, ci, q, rng)->Some_0),
{
    let y0 = breaks_before(t, ci) as int;
    let start = ci + 1;
    let end = ci + line_len(t, y0);
    let here = if start <= end && end <= t.len() {
        match find_in(t.subrange(start, end), q) {
            Some(b) => Some(start + b),
            None => None,
        }
    } else {
        None
    };
    if here is Some {
        lemma_ascii_hit(t, start, end, q);
    } else {
        let (lo, hi) = match rng {
            Some(r) => r,
            None => (0, sat_sub(line_count(t) as int, 1)),
        };
        let f = match first_line_hit(t, q, y0 + 1, hi) {
            Some(v) => first_line_hit(t, q, y0 + 1, hi),
            None => first_line_hit(t, q, lo, y0 + 1),
        };
        if first_line_hit(t, q, y0 + 1, hi) is Some {
            lemma_first_line_hit(t, q, y0 + 1, hi);
        } else {
            lemma_first_line_hit(t, q, lo, y0 + 1);
        }
        let y = choose|y: int| 0 <= y < line_count(t) && #[trigger] line_hit(t, q, y) == f;
        lemma_line_bounds(t, y);
        assert(line_text(t, y) == t.subrange(line_start(t, y), line_start(t, y + 1)));
        lemma_ascii_hit(t, line_start(t, y), line_start(t, y + 1), q);
    }
}


/// `}` goes to the start of the first line after the cursor's that holds a
/// single char (an empty line: just its line break); every line in between
/// holds more or fewer chars. With no such line it goes to the start of the
/// last line, and then no line after the cursor's holds a single char.
pub proof fn lemma_next_empty_line_law(t: Seq<char>, idx: int) -> (y: int)
    requires
        0 <= idx <= t.len(),
    ensures
        0 <= y < line_count(t),
        next_empty_line(t, idx) == line_start(t, y),
        forall|k: int| breaks_before(t, idx) < k < y ==> #[trigger] line_text(t, k).len() != 1,
        (breaks_before(t, idx) < y && line_text(t, y).len() == 1) || (y == line_count(t) - 1 && forall|k: int|
            breaks_before(t, idx) < k < line_count(t) ==> #[trigger] line_text(t, k).len() != 1),
{
    let y0 = breaks_before(t, idx) as int;
    let n = line_count(t) as int;
    let p = |k: int| line_len(t, k) == 1;
    lemma_char_line(t, idx);
    lemma_first_from(y0 + 1, n, p);
    let f = first_from(y0 + 1, n, p);
    assert forall|k: int| y0 < k < f implies #[trigger] line_text(t, k).len() != 1 by {
        assert(!p(k));
        lemma_line_bounds(t, k);
    }
    if f < n {
        assert(p(f));
        lemma_line_bounds(t, f);
        f
    } else {
        n - 1
    }
}

/// `{` goes to the start of the nearest line above the cursor's that holds a
/// single char (an empty line); every line in between holds more or fewer
/// chars. With no such line it goes to the start of the first line.
pub proof fn lemma_prev_empty_line_law(t: Seq<char>, idx: int) -> (y: int)
    requires
        0 <= idx <= t.len(),
    ensures
        0 <= y,
        y < breaks_before(t, idx) || y == 0,
        prev_empty_line(t, idx) == line_start(t, y),
        y == 0 || line_text(t, y).len() == 1,
        forall|k: int| y < k < breaks_before(t, idx) ==> #[trigger] line_text(t, k).len() != 1,
{
    let y0 = breaks_before(t, idx) as int;
    let p = |k: int| line_len(t, k) != 1;
    let top = sat_sub(y0, 1);
    lemma_scan_down(0, top, p);
    let r = scan_down(0, top, p);
    assert forall|k: int| r < k < y0 implies #[trigger] line_text(t, k).len() != 1 by {
        assert(p(k));
        lemma_line_bounds(t, k);
    }
    if r != 0 {
        assert(!p(r));
        lemma_line_bounds(t, r);
    }
    r
}

/// `w` (`big` false) and `W` (`big` true) with no operator pending: from
/// `idx` they pass the run that starts there (non-blank chars, for `w` all of
/// one kind, word chars or not), then the blank chars after it, and stop at
/// the next non-blank char, at the end of the text, or on an empty line (a
/// line break right after a line break); they always move forward.
pub proof fn lemma_word_motion_law(t: Seq<char>, idx: int, big: bool) -> (e: int)
    requires
        0 <= idx < t.len(),
    ensures
        ({
            let r = if big { next_big_word(t, idx, false) } else { next_word(t, idx, false) };
            let in_run = |k: int| !is_white(t[k]) && (big || is_word(t[k]) == is_word(t[idx]));
            &&& idx < r <= t.len()
            &&& idx <= e <= r
            &&& forall|k: int| idx <= k < e ==> #[trigger] in_run(k)
            &&& e == t.len() || !in_run(e)
            &&& forall|k: int| e <= k < r ==> is_white(#[trigger] t[k])
            &&& forall|k: int| e <= k && k + 1 < r ==> !(#[trigger] t[k] == '\n' && t[k + 1] == '\n')
            &&& r == t.len() || !is_white(t[r]) || (t[r] == '\n' && t[r - 1] == '\n' && e <= r - 1)
        }),
{
    let n = t.len() as int;
    let stop = if big { big_run_stop(t) } else { run_stop(t, is_word(t[idx])) };
    let in_run = |k: int| !is_white(t[k]) && (big || is_word(t[k]) == is_word(t[idx]));
    lemma_first_from(idx, n, stop);
    let e = first_from(idx, n, stop);
    assert(big ==> e == first_from(idx, n, big_run_stop(t)));
    assert(!big ==> e == first_from(idx, n, run_stop(t, is_word(t[idx]))));
    assert forall|k: int| idx <= k < e implies #[trigger] in_run(k) by {
        assert(!stop(k));
    }
    if e < n {
        assert(stop(e));
    }
    let bs = blank_stop(t);
    lemma_first_from(e, n, bs);
    let m = first_from(e, n, bs);
    assert forall|k: int| e <= k < m implies is_white(#[trigger] t[k]) by {
        assert(!bs(k));
    }
    assert forall|k: int| e <= k && k < m && k + 1 < n implies !(#[trigger] t[k] == '\n' && t[k + 1] == '\n') by {
        assert(!bs(k));
    }
    if m < n {
        assert(bs(m));
    }
    e
}

/// `$` stops at the first line break from `idx` on, or at the end of the
/// text when there is none; no line break lies before it.
pub proof fn lemma_line_end_law(t: Seq<char>, idx: int)
    requires
        0 <= idx <= t.len(),
    ensures
        idx <= next_break(t, idx) <= t.len(),
        forall|k: int| idx <= k < next_break(t, idx) ==> #[trigger] t[k] != '\n',
        next_break(t, idx) == t.len() || t[next_break(t, idx)] == '\n',
{
    let p = |k: int| t[k] == '\n';
    lemma_first_from(idx, t.len() as int, p);
    assert forall|k: int| idx <= k < next_break(t, idx) implies #[trigger] t[k] != '\n' by {
        assert(!p(k));
    }
    if next_break(t, idx) < t.len() {
        assert(p(next_break(t, idx)));
    }
}

/// `^` stops at the first char of the line that is not a blank other than a
/// line break; every char before it on the line is such a blank.
pub proof fn lemma_first_non_indent_law(t: Seq<char>, y: int)
    requires
        0 <= y < line_count(t),
    ensures
        line_start(t, y) <= first_non_indent(t, y) <= line_start(t, y + 1),
        forall|k: int|
            line_start(t, y) <= k < first_non_indent(t, y) ==> is_white(#[trigger] t[k]) && t[k] != '\n',
        first_non_indent(t, y) == line_start(t, y + 1) || !is_white(t[first_non_indent(t, y)]) || t[first_non_indent(
            t,
            y,
        )] == '\n',
{
    lemma_line_bounds(t, y);
    let p = |k: int| !is_indent(t[k]);
    lemma_first_from(line_start(t, y), line_start(t, y + 1), p);
    let r = first_non_indent(t, y);
    assert forall|k: int| line_start(t, y) <= k < r implies is_white(#[trigger] t[k]) && t[k] != '\n' by {
        assert(!p(k));
    }
    if r < line_start(t, y + 1) {
        assert(p(r));
    }
}

/// `e` (`classes`) and `E`: past the cursor's char they skip blanks, then go
/// to the last char of the word (non-blank chars, for `e` all of one kind)
/// that starts there; with nothing but blanks after the cursor, to the end of
/// the text.
pub proof fn lemma_word_end_law(t: Seq<char>, idx: int, classes: bool) -> (a: int)
    requires
        0 <= idx,
        idx + 1 < t.len(),
    ensures
        ({
            let r = word_end(t, idx, classes);
            &&& idx < a <= t.len()
            &&& forall|k: int| idx < k < a ==> is_white(#[trigger] t[k])
            &&& a == t.len() ==> r == t.len()
            &&& a < t.len() ==> {
                &&& !is_white(t[a])
                &&& a <= r < t.len()
                &&& forall|k: int|
                    a <= k <= r ==> !is_white(#[trigger] t[k]) && (!classes || is_word(t[k]) == is_word(t[a]))
                &&& r == t.len() - 1 || is_white(t[r + 1]) || (classes && is_word(t[r + 1]) != is_word(t[a]))
            }
        }),
{
    let n = t.len() as int;
    let nw = |k: int| !is_white(t[k]);
    lemma_first_from(idx + 1, n, nw);
    let a = first_from(idx + 1, n, nw);
    assert forall|k: int| idx < k < a implies is_white(#[trigger] t[k]) by {
        assert(!nw(k));
    }
    if a < n {
        assert(nw(a));
        let st = end_stop(t, a, classes);
        lemma_first_from(a, n - 1, st);
        let r = first_from(a, n - 1, st);
        assert forall|k: int| a <= k <= r implies !is_white(#[trigger] t[k]) && (!classes || is_word(t[k]) == is_word(t[a])) by {
            if k > a {
                assert(!st(k - 1));
            }
        }
        if r < n - 1 {
            assert(st(r));
        }
    }
    a
}

/// `iw` (`classes`) and `iW` on a non-blank char: the object starts at the
/// first char of the run of non-blank chars (for `iw` all of the cursor's
/// kind) that holds the cursor, and ends where that run stops after the
/// cursor, but not past the last char but one of the text.
pub proof fn lemma_word_object_law(t: Seq<char>, ci: int, classes: bool)
    requires
        0 <= ci < t.len(),
        !is_white(t[ci]),
    ensures
        ({
            let (s, e) = if classes { word_around(t, ci) } else { big_word_around(t, ci) };
            let in_run = |k: int| !is_white(t[k]) && (!classes || is_word(t[k]) == is_word(t[ci]));
            &&& 0 <= s <= ci
            &&& forall|k: int| s <= k <= ci ==> #[trigger] in_run(k)
            &&& s == 0 || !in_run(s - 1)
            &&& ci + 1 >= t.len() - 1 ==> e == ci
            &&& ci + 1 < t.len() - 1 ==> {
                &&& ci < e <= t.len() - 2
                &&& forall|k: int| ci < k < e ==> #[trigger] in_run(k)
                &&& e == t.len() - 2 || !in_run(e)
            }
        }),
{
    let in_run = |k: int| !is_white(t[k]) && (!classes || is_word(t[k]) == is_word(t[ci]));
    let word = is_word(t[ci]);
    let down = if classes {
        |k: int| !is_white(t[k - 1]) && is_word(t[k - 1]) == word
    } else {
        |k: int| !is_white(t[k - 1])
    };
    let stop = if classes { run_stop(t, word) } else { big_run_stop(t) };
    lemma_scan_down(0, ci, down);
    let s = scan_down(0, ci, down);
    assert(classes ==> s == word_around(t, ci).0);
    assert(!classes ==> s == big_word_around(t, ci).0);
    assert forall|k: int| s <= k <= ci implies #[trigger] in_run(k) by {
        if k < ci {
            assert(down(k + 1));
        }
    }
    if s != 0 {
        assert(!down(s));
    }
    if ci + 1 < t.len() - 1 {
        lemma_first_from(ci + 1, t.len() - 1, stop);
        let f = first_from(ci + 1, t.len() - 1, stop);
        assert(classes ==> word_around(t, ci).1 == min_int(f, t.len() - 2));
        assert(!classes ==> big_word_around(t, ci).1 == min_int(f, t.len() - 2));
        assert forall|k: int| ci < k < f implies #[trigger] in_run(k) by {
            assert(!stop(k));
        }
        if f < t.len() - 1 {
            assert(stop(f));
        }
    }
}

/// `b` (`classes`) and `B` move strictly back, and stop at the start of the
/// text, on an empty line (a line break right after a line break), or at a
/// char whose left neighbour is blank or (for `b`) of the other kind: never
/// inside a word.
pub proof fn lemma_back_word_law(t: Seq<char>, idx: int, classes: bool)
    requires
        0 < idx <= t.len(),
    ensures
        ({
            let r = back_word(t, idx, classes);
            &&& 0 <= r < idx
            &&& r == 0 || (t[r] == '\n' && t[r - 1] == '\n') || is_white(t[r - 1]) || (classes && is_word(t[r - 1])
                != is_word(t[r]))
        }),
{
    let sp = |k: int| is_space_or_tab(t[k]);
    lemma_scan_down(0, idx - 1, sp);
    let i1 = scan_down(0, idx - 1, sp);
    let nl = |k: int| t[k] == '\n' && t[k - 1] != '\n';
    lemma_scan_down(0, i1, nl);
    let i2 = scan_down(0, i1, nl);
    assert(back_landing(t, idx) == (i2, i2 > 0 && t[i2] == '\n'));
    if i2 > 0 && t[i2] == '\n' {
        assert(!nl(i2));
    } else {
        let q = |k: int| !is_white(t[k - 1]) && (!classes || is_word(t[k - 1]) == is_word(t[i2]));
        lemma_scan_down(0, i2, q);
        let r = scan_down(0, i2, q);
        assert(back_word(t, idx, classes) == r);
        if r != 0 {
            assert(!q(r));
            if r < i2 {
                assert(q(r + 1));
            }
        }
    }
}

/// `f`, `t`, `F`, `T` look only at the chars of the cursor's line strictly
/// after (forwards) or strictly before (backwards) the cursor's column: a
/// result is at the nearest such char that is the query (one column short of
/// it, towards the cursor, without `inclusive`); no result means no such char
/// is the query.
pub proof fn lemma_char_inline_law(t: Seq<char>, y: int, x: int, query: char, forwards: bool, inclusive: bool)
    requires
        0 <= y < line_count(t),
        0 <= x,
        !forwards ==> x <= line_len(t, y),
    ensures
        ({
            let l = line_text(t, y);
            let ls = line_start(t, y);
            match char_inline(t, y, x, query, forwards, inclusive) {
                Some(i) => {
                    let m = if inclusive {
                        i - ls
                    } else if forwards {
                        i - ls + 1
                    } else {
                        i - ls - 1
                    };
                    &&& forwards ==> x < m < l.len()
                    &&& !forwards ==> 0 <= m < x
                    &&& l[m] == query
                    &&& forall|k: int| (if forwards { x < k < m } else { m < k < x }) ==> #[trigger] l[k] != query
                },
                None => forall|k: int|
                    0 <= k < l.len() && (if forwards { x < k } else { k < x }) ==> #[trigger] l[k] != query,
            }
        }),
{
    lemma_line_bounds(t, y);
    let l = line_text(t, y);
    let p = is_query_at(t, y, query);
    if forwards {
        if x + 1 <= line_len(t, y) {
            lemma_first_from(x + 1, line_len(t, y), p);
            assert forall|k: int| x < k < first_from(x + 1, line_len(t, y), p) implies #[trigger] l[k] != query by {
                assert(!p(k));
            }
            if first_from(x + 1, line_len(t, y), p) < line_len(t, y) {
                assert(p(first_from(x + 1, line_len(t, y), p)));
            }
        }
    } else {
        lemma_last_from(0, x, p);
        let m = last_from(0, x, p);
        assert forall|k: int| m < k < x implies #[trigger] l[k] != query by {
            assert(!p(k));
        }
        if m >= 0 {
            assert(p(m));
        }
    }
}

/// With an operator pending, `w` and `W` stop at the line break that ends the
/// run under the cursor: an operator never reaches past the end of the line.
pub proof fn lemma_operator_word_stops_at_break(t: Seq<char>, idx: int, j: int)
    requires
        0 <= idx <= j < t.len(),
        t[j] == '\n',
        forall|k: int| idx <= k < j ==> !is_white(#[trigger] t[k]),
    ensures
        next_big_word(t, idx, true) == j,
        (forall|k: int| idx <= k < j ==> is_word(#[trigger] t[k]) == is_word(t[idx])) ==> next_word(t, idx, true) == j,
{
    assert(is_white(t[j]));
    let n = t.len() as int;
    assert forall|k: int| idx <= k < j implies !#[trigger] big_run_stop(t)(k) by {}
    lemma_first_from_is(idx, n, big_run_stop(t), j);
    if forall|k: int| idx <= k < j ==> is_word(#[trigger] t[k]) == is_word(t[idx]) {
        assert forall|k: int| idx <= k < j implies !#[trigger] run_stop(t, is_word(t[idx]))(k) by {}
        lemma_first_from_is(idx, n, run_stop(t, is_word(t[idx])), j);
    }
}

/// The last line of `lo..hi` with a match is `y` when `y` has one and no
/// line after it (below `hi`) does.
proof fn lemma_last_line_rhit_is(t: Seq<char>, q: Seq<char>, lo: int, hi: int, y: int)
    requires
        lo <= y < hi,
        line_rhit(t, q, y) is Some,
        forall|k: int| y < k < hi ==> #[trigger] line_rhit(t, q, k) is None,
    ensures
        last_line_rhit(t, q, lo, hi) == line_rhit(t, q, y),
    decreases hi - lo,
{
    if hi - 1 > y {
        assert(line_rhit(t, q, hi - 1) is None);
        lemma_last_line_rhit_is(t, q, lo, hi - 1, y);
    }
}

/// `N` otherwise: a match before the cursor on its line is taken first (the
/// last such); with none there and none on the lines above, the search wraps
/// round to the last match of the lowest line, from the line above the
/// cursor's (the first line when the cursor is on it) down to the last line,
/// that has one; with no match in any of those lines there is no result.
pub proof fn lemma_prev_search_rest(t: Seq<char>, ci: int, q: Seq<char>)
    requires
        0 <= ci <= t.len(),
    ensures
        ({
            let y0 = breaks_before(t, ci) as int;
            let s = line_start(t, y0);
            &&& rfind_in(t.subrange(s, ci), q) matches Some(b) ==> prev_search_result(t, ci, q) == Some(s + b)
            &&& rfind_in(t.subrange(s, ci), q) is None && (forall|y: int|
                0 <= y < y0 ==> #[trigger] rfind_in(line_text(t, y), q) is None) ==> {
                &&& forall|y2: int|
                    sat_sub(y0, 1) <= y2 < line_count(t) && #[trigger] rfind_in(line_text(t, y2), q) is Some && (
                    forall|y: int| y2 < y < line_count(t) ==> rfind_in(line_text(t, y), q) is None)
                        ==> prev_search_result(t, ci, q) == Some(
                        line_start(t, y2) + rfind_in(line_text(t, y2), q)->Some_0,
                    )
                &&& (forall|y: int| sat_sub(y0, 1) <= y < line_count(t) ==> rfind_in(line_text(t, y), q) is None)
                    ==> prev_search_result(t, ci, q) is None
            }
        }),
{
    let y0 = breaks_before(t, ci) as int;
    let s = line_start(t, y0);
    let n = line_count(t) as int;
    if rfind_in(t.subrange(s, ci), q) is None && (forall|y: int|
        0 <= y < y0 ==> #[trigger] rfind_in(line_text(t, y), q) is None) {
        lemma_last_line_rhit_none(t, q, 0, y0);
        assert forall|y2: int|
            sat_sub(y0, 1) <= y2 < n && #[trigger] rfind_in(line_text(t, y2), q) is Some && (forall|y: int|
                y2 < y < n ==> rfind_in(line_text(t, y), q) is None) implies prev_search_result(t, ci, q) == Some(
            line_start(t, y2) + rfind_in(line_text(t, y2), q)->Some_0,
        ) by {
            assert forall|k: int| y2 < k < n implies #[trigger] line_rhit(t, q, k) is None by {
                assert(rfind_in(line_text(t, k), q) is None);
            }
            lemma_last_line_rhit_is(t, q, sat_sub(y0, 1), n, y2);
        }
        if forall|y: int| sat_sub(y0, 1) <= y < n ==> rfind_in(line_text(t, y), q) is None {
            lemma_last_line_rhit_none(t, q, sat_sub(y0, 1), n);
        }
    }
}

/// With no match on any line of `lo..hi`, there is no last line with one.
proof fn lemma_last_line_rhit_none(t: Seq<char>, q: Seq<char>, lo: int, hi: int)
    requires
        forall|y: int| lo <= y < hi ==> #[trigger] rfind_in(line_text(t, y), q) is None,
    ensures
        last_line_rhit(t, q, lo, hi) is None,
    decreases hi - lo,
{
    if hi > lo {
        assert(rfind_in(line_text(t, hi - 1), q) is None);
        lemma_last_line_rhit_none(t, q, lo, hi - 1);
    }
}

/// `N` with no match before the cursor on its line goes to the last match of
/// the nearest line above that has one, before any match below the cursor.
pub proof fn lemma_prev_search_line_above(t: Seq<char>, ci: int, q: Seq<char>, y1: int)
    requires
        0 <= ci <= t.len(),
        rfind_in(t.subrange(line_start(t, breaks_before(t, ci) as int), ci), q) is None,
        0 <= y1 < breaks_before(t, ci),
        rfind_in(line_text(t, y1), q) is Some,
        forall|y: int| y1 < y < breaks_before(t, ci) ==> #[trigger] rfind_in(line_text(t, y), q) is None,
    ensures
        prev_search_result(t, ci, q) == Some(line_start(t, y1) + rfind_in(line_text(t, y1), q)->Some_0),
{
    let y0 = breaks_before(t, ci) as int;
    assert forall|k: int| y1 < k < y0 implies #[trigger] line_rhit(t, q, k) is None by {
        assert(rfind_in(line_text(t, k), q) is None);
    }
    lemma_last_line_rhit_is(t, q, 0, y0, y1);
}

pub open spec fn opt_range(r: Option<[usize; 2]>) -> Option<(int, int)> {
    match r {
        Some(a) => Some((a@[0] as int, a@[1] as int)),
        None => None,
    }
}

/// Searches line `y` for `query`.
fn search_line(rope: &Rope, y: usize, query: &str) -> (r: Option<usize>)
    requires
        y < line_count(rope_text(*rope)),
        rope_fits(rope_text(*rope)),
    ensures
        opt_int(r) == line_hit(rope_text(*rope), query@, y as int),
{
    let ghost t = rope_text(*rope);
    proof {
        lemma_line_bounds(t, y as int);
        lemma_offset_within(t, line_start(t, y as int), line_start(t, y + 1));
    }
    let text = rope_line(rope, y);
    let s = slice_to_string(&text);
    if let Some(idx) = find_str(s.as_str(), query) {
        return Some(rope_line_to_char(rope, y) + idx);
    }
    None
}

/// The first hit in the lines `from..to` (stopping at the end of the text).
fn search_lines(rope: &Rope, from: usize, to: usize, query: &str) -> (r: Option<usize>)
    requires
        rope_fits(rope_text(*rope)),
    ensures
        opt_int(r) == first_line_hit(rope_text(*rope), query@, from as int, to as int),
{
    let ghost t = rope_text(*rope);
    let mut line_idx = from;
    while line_idx < to
        invariant
            t == rope_text(*rope),
            rope_fits(t),
            from <= line_idx,
            line_idx <= to || line_idx == from,
            first_line_hit(t, query@, from as int, to as int) == first_line_hit(t, query@, line_idx as int, to as int),
        ensures
            line_idx >= to || line_idx >= line_count(t),
            first_line_hit(t, query@, from as int, to as int) == first_line_hit(t, query@, line_idx as int, to as int),
        decreases to - line_idx,
    {
        if let Some(_line) = rope_get_line(rope, line_idx) {
            if let Some(idx) = search_line(rope, line_idx, query) {
                return Some(idx);
            }
            line_idx += 1;
        } else {
            break;
        }
    }
    None
}

/// The next match of `query` after the cursor at `char_idx` (`n`), searching
/// the lines in `line_rng` (all lines when `None`) and wrapping around.
pub fn next_search_result_idx(
    char_idx: usize,
    query: &str,
    rope: &Rope,
    line_rng: Option<[usize; 2]>,
) -> (r: Option<usize>)
    requires
        char_idx <= rope_text(*rope).len(),
        char_idx < usize::MAX,
        char_idx + line_len(rope_text(*rope), breaks_before(rope_text(*rope), char_idx as int) as int)
            <= usize::MAX,
        rope_fits(rope_text(*rope)),
    ensures
        opt_int(r) == next_search_result(rope_text(*rope), char_idx as int, query@, opt_range(line_rng)),
{
    let ghost t = rope_text(*rope);
    proof {
        lemma_char_line(t, char_idx as int);
        lemma_chars_le_bytes(t);
    }
    // search to the end of the line
    let start_line_idx = rope_char_to_line(rope, char_idx);
    proof {
        lemma_line_bounds(t, start_line_idx as int);
    }
    let mut line_idx = start_line_idx;
    if let Some(current_line) = rope_get_line(rope, line_idx) {
        let mut start = char_idx + 1;
        let mut end = char_idx + slice_len_chars(&current_line);
        if let Some(slice) = rope_get_slice(rope, start, end) {
            proof {
                lemma_offset_within(t, start as int, end as int);
            }
            let text = slice_to_string(&slice);
            if let Some(idx) = find_str(text.as_str(), query) {
                return Some(start + idx);
            }
        }

        if let Some(rng) = line_rng {
            start = rng[0];
            end = rng[1];
        } else {
            start = 0;
            end = rope_len_lines(rope).saturating_sub(1);
        }

        // search line by line from cursor
        line_idx += 1;
        if let Some(idx) = search_lines(rope, line_idx, end, query) {
            return Some(idx);
        }

        // search from the top to the cursor
        if let Some(idx) = search_lines(rope, start, start_line_idx + 1, query) {
            return Some(idx);
        }
    }

    None
}

/// A backward search hit in line `y`: where the last occurrence of `q` in it starts.
pub open spec fn line_rhit(t: Seq<char>, q: Seq<char>, y: int) -> Option<int> {
    match rfind_in(line_text(t, y), q) {
        Some(b) => Some(line_start(t, y) + b),
        None => None,
    }
}

/// The hit in the last of the lines `lo..hi` that has one.
pub open spec fn last_line_rhit(t: Seq<char>, q: Seq<char>, lo: int, hi: int) -> Option<int>
    decreases hi - lo,
{
    if hi <= lo {
        None
    } else {
        match line_rhit(t, q, hi - 1) {
            Some(v) => Some(v),
            None => last_line_rhit(t, q, lo, hi - 1),
        }
    }
}

/// `N`: the previous match of `q` before `ci`: the last one on the cursor's
/// line before it, then in the lines above, then from the last line up to the
/// line above the cursor's (the first line when the cursor is on it).
pub open spec fn prev_search_result(t: Seq<char>, ci: int, q: Seq<char>) -> Option<int> {
    let y0 = breaks_before(t, ci) as int;
    let s = line_start(t, y0);
    match rfind_in(t.subrange(s, ci), q) {
        Some(b) => Some(s + b),
        None => match last_line_rhit(t, q, 0, y0) {
            Some(v) => Some(v),
            None => last_line_rhit(t, q, sat_sub(y0, 1), line_count(t) as int),
        },
    }
}

/// Searches line `y` backwards for `query`.
fn rsearch_line(rope: &Rope, y: usize, query: &str) -> (r: Option<usize>)
    requires
        y < line_count(rope_text(*rope)),
        rope_fits(rope_text(*rope)),
    ensures
        opt_int(r) == line_rhit(rope_text(*rope), query@, y as int),
{
    let ghost t = rope_text(*rope);
    proof {
        lemma_line_bounds(t, y as int);
        lemma_offset_within(t, line_start(t, y as int), line_start(t, y + 1));
    }
    let text = slice_to_string(&rope_line(rope, y));
    if let Some(idx) = rfind_str(text.as_str(), query) {
        return Some(rope_line_to_char(rope, y) + idx);
    }
    None
}

/// The previous match of `query` before the cursor at `char_idx` (`N`),
/// wrapping around to the end of the text.
pub fn prev_search_result_idx(char_idx: usize, query: &str, rope: &Rope) -> (r: Option<usize>)
    requires
        char_idx <= rope_text(*rope).len(),
        rope_fits(rope_text(*rope)),
        breaks_before(rope_text(*rope), char_idx as int) > 0 || prev_search_result(
            rope_text(*rope),
            char_idx as int,
            query@,
        ) is Some,
    ensures
        opt_int(r) == prev_search_result(rope_text(*rope), char_idx as int, query@),
{
    let ghost t = rope_text(*rope);
    proof {
        lemma_char_line(t, char_idx as int);
        lemma_chars_le_bytes(t);
    }
    // search from the start of the line
    let start_line_idx = rope_char_to_line(rope, char_idx);
    let mut line_idx = start_line_idx;
    let start = rope_line_to_char(rope, line_idx);
    let end = char_idx;
    proof {
        lemma_offset_within(t, start as int, end as int);
    }
    if let Some(idx) = rfind_str(slice_to_string(&rope_slice(rope, start, end)).as_str(), query) {
        return Some(start + idx);
    }

    // search line by line
    while line_idx > 0
        invariant
            t == rope_text(*rope),
            rope_fits(t),
            start_line_idx < line_count(t),
            start_line_idx == breaks_before(t, char_idx as int),
            line_start(t, start_line_idx as int) <= char_idx <= t.len(),
            rfind_in(t.subrange(line_start(t, start_line_idx as int), char_idx as int), query@) is None,
            line_idx <= start_line_idx,
            last_line_rhit(t, query@, 0, start_line_idx as int) == last_line_rhit(t, query@, 0, line_idx as int),
        decreases line_idx,
    {
        line_idx = line_idx.saturating_sub(1);
        if let Some(idx) = rsearch_line(rope, line_idx, query) {
            return Some(idx);
        }
    }

    // search from the bottom to the cursor
    line_idx = rope_len_lines(rope);
    let ghost lo = sat_sub(start_line_idx as int, 1);
    while line_idx >= start_line_idx
        invariant
            t == rope_text(*rope),
            rope_fits(t),
            start_line_idx < line_count(t),
            lo == sat_sub(start_line_idx as int, 1),
            line_idx <= line_count(t),
            line_idx >= lo,
            last_line_rhit(t, query@, 0, start_line_idx as int) is None,
            line_start(t, start_line_idx as int) <= char_idx <= t.len(),
            rfind_in(t.subrange(line_start(t, start_line_idx as int), char_idx as int), query@) is None,
            start_line_idx == breaks_before(t, char_idx as int),
            breaks_before(t, char_idx as int) > 0 || prev_search_result(t, char_idx as int, query@) is Some,
            last_line_rhit(t, query@, lo, line_count(t) as int) == last_line_rhit(t, query@, lo, line_idx as int),
        decreases line_idx,
    {
        let ghost before = line_idx;
        line_idx = line_idx.saturating_sub(1);
        if let Some(idx) = rsearch_line(rope, line_idx, query) {
            return Some(idx);
        }
        proof {
            if before == 0 {
                assert(last_line_rhit(t, query@, lo, 1) is None);
            }
        }
    }

    None
}

} // verus!
