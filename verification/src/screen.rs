//! What a frame of the editor shows, before it is drawn: the lines in view,
//! which chars are highlighted, the line numbers, the gutter, the cursor's
//! place on the screen and the status line.

use vstd::prelude::*;
use crate::text::{
    rope_fits, rope_text, line_count, line_start, line_text, rope_len_lines, rope_len_chars, rope_line_to_char,
    rope_get_line, slice_len_chars, slice_char, slice_text,
};
use crate::types::{VisualBlockRng, VisualSelection, CursorPos, Mode};
use crate::editor::{App, AppView, str_len, sel_lo, sel_hi};
use crate::helpers::{decimal, push_decimal};
use crate::ranges::{min_int, sat_sub};
use crate::strings::push_char;

verus! {

/// A pair ordered: the smaller first.
pub open spec fn ordered(r: [usize; 2]) -> [usize; 2] {
    if r@[0] <= r@[1] {
        [r@[0], r@[1]]
    } else {
        [r@[1], r@[0]]
    }
}

/// What a frame needs besides the editor: whether selections are shown, the
/// visual block (ordered), and the lines in view.
pub struct FrameInfo {
    pub highlight_text: bool,
    pub block: Option<VisualBlockRng>,
    pub first_line: usize,
    pub end_line: usize,
}

/// The editor as a frame of `height` text lines begins: a yank flash asks for
/// a redraw; in command and search mode the cursor goes to the command bar;
/// in visual-block mode the block's far corner follows the cursor; the view
/// takes the new height.
pub open spec fn frame_begun(a: AppView, height: usize) -> AppView {
    let a1 = if a.highlight_yank {
        AppView { redraw: true, ..a }
    } else {
        a
    };
    let c = a.cursor;
    let a2 = match a.mode {
        Mode::Command | Mode::Search => AppView {
            cursor: CursorPos { y: (a.main_height + 2) as usize, x: str_len(a.command_bar), ..c },
            ..a1
        },
        Mode::VisualBlock => match a.block {
            Some(rng) => AppView {
                block: Some(VisualBlockRng { x_rng: [rng.x_rng@[0], c.x], y_rng: [rng.y_rng@[0], c.y] }),
                ..a1
            },
            None => a1,
        },
        _ => a1,
    };
    let end = min_int(a.top_line + height, line_count(a.text) as int);
    AppView { main_height: height, lines_in_view: [a.top_line, end as usize], ..a2 }
}

/// Whether the frame shows selections, and the ordered visual block.
pub open spec fn frame_info(a: AppView, height: usize) -> FrameInfo {
    let hl = a.highlight_yank || a.mode == Mode::Search || a.mode == Mode::Visual || a.mode is VisualLine || a.mode
        == Mode::VisualBlock;
    let b = frame_begun(a, height);
    FrameInfo {
        highlight_text: hl,
        block: if a.mode == Mode::VisualBlock {
            match b.block {
                Some(r) => Some(VisualBlockRng { x_rng: ordered(r.x_rng), y_rng: ordered(r.y_rng) }),
                None => None,
            }
        } else {
            None
        },
        first_line: a.top_line,
        end_line: b.lines_in_view@[1],
    }
}

impl App {
    /// Starts a frame of `height` text lines (see `frame_begun`) and returns
    /// what the frame needs.
    pub fn begin_frame(&mut self, height: usize) -> (f: FrameInfo)
        requires
            old(self).main_height + 2 <= usize::MAX,
            old(self).top_line + height <= usize::MAX,
        ensures
            final(self)@ == frame_begun(old(self)@, height),
            f == frame_info(old(self)@, height),
    {
        let mut visual_block_rng = None;
        let mut highlight_text = false;
        if self.highlight_yank {
            self.redraw = true;
            highlight_text = true;
        }
        match self.mode {
            Mode::Command => {
                self.cursor_pos.y = self.main_height + 2;
                self.cursor_pos.x = self.command_bar.as_str().len();
            },
            Mode::Search => {
                self.cursor_pos.y = self.main_height + 2;
                self.cursor_pos.x = self.command_bar.as_str().len();
                highlight_text = true;
            },
            Mode::Visual | Mode::VisualLine(_) => {
                highlight_text = true;
            },
            Mode::VisualBlock => {
                highlight_text = true;
                if let Some(rng) = self.visual_block_rng {
                    let x_rng = [rng.x_rng[0], self.cursor_pos.x];
                    let y_rng = [rng.y_rng[0], self.cursor_pos.y];
                    self.visual_block_rng = Some(VisualBlockRng { x_rng, y_rng });
                    let xs = if x_rng[0] <= x_rng[1] {
                        [x_rng[0], x_rng[1]]
                    } else {
                        [x_rng[1], x_rng[0]]
                    };
                    let ys = if y_rng[0] <= y_rng[1] {
                        [y_rng[0], y_rng[1]]
                    } else {
                        [y_rng[1], y_rng[0]]
                    };
                    visual_block_rng = Some(VisualBlockRng { x_rng: xs, y_rng: ys });
                }
            },
            _ => {},
        }
        self.main_height = height;
        let start_line_idx = self.top_line;
        let n = rope_len_lines(&self.rope);
        let end_line_idx = if start_line_idx + height <= n {
            start_line_idx + height
        } else {
            n
        };
        self.lines_in_view = [start_line_idx, end_line_idx];
        FrameInfo { highlight_text, block: visual_block_rng, first_line: start_line_idx, end_line: end_line_idx }
    }

    /// Ends a frame: the yank flash is over, and the welcome popup goes once
    /// the text holds more than its first line break.
    pub fn end_frame(&mut self)
        ensures
            final(self)@ == (AppView {
                highlight_yank: false,
                show_first_time_popup: old(self).show_first_time_popup && rope_text(old(self).rope).len() <= 1,
                ..old(self)@
            }),
    {
        self.highlight_yank = false;
        if self.show_first_time_popup && rope_len_chars(&self.rope) > 1 {
            self.show_first_time_popup = false;
        }
    }
}

/// The inclusive ranges of chars highlighted on a line that spans the chars
/// `start..end`: the matching bracket, and (when selections are shown) each
/// selection that reaches into the line.
pub open spec fn line_ranges(
    start: int,
    end: int,
    bracket: Option<usize>,
    sels: Seq<VisualSelection>,
    highlight_text: bool,
) -> Seq<(int, int)> {
    let b = match bracket {
        Some(i) => if end > i && start <= i {
            seq![(i as int, i as int)]
        } else {
            Seq::empty()
        },
        None => Seq::empty(),
    };
    if highlight_text {
        b + sels_on_line(start, end, sels)
    } else {
        b
    }
}

/// The selections that reach into the chars `start..end`, as inclusive ranges.
pub open spec fn sels_on_line(start: int, end: int, sels: Seq<VisualSelection>) -> Seq<(int, int)>
    decreases sels.len(),
{
    if sels.len() == 0 {
        Seq::empty()
    } else {
        let rest = sels_on_line(start, end, sels.drop_last());
        let s = sels.last();
        if end > sel_lo(s) && start <= sel_hi(s) {
            rest.push((sel_lo(s), sel_hi(s)))
        } else {
            rest
        }
    }
}

/// Whether char `i` of line `y` (at column `x`) is highlighted: in one of the
/// ranges, or in the visual block.
pub open spec fn is_lit(rs: Seq<(int, int)>, block: Option<VisualBlockRng>, y: int, x: int, i: int) -> bool {
    (exists|k: int| 0 <= k < rs.len() && (#[trigger] rs[k]).0 <= i <= rs[k].1) || match block {
        Some(b) => b.y_rng@[0] <= y <= b.y_rng@[1] && b.x_rng@[0] <= x <= b.x_rng@[1],
        None => false,
    }
}

/// Chars split into maximal runs of the same highlighting.
pub open spec fn runs(cs: Seq<(char, bool)>) -> Seq<(Seq<char>, bool)>
    decreases cs.len(),
{
    if cs.len() == 0 {
        Seq::empty()
    } else {
        let r = runs(cs.drop_last());
        let (c, lit) = cs.last();
        if r.len() > 0 && r.last().1 == lit {
            r.update(r.len() - 1, (r.last().0.push(c), lit))
        } else {
            r.push((seq![c], lit))
        }
    }
}

/// The chars of line `l` (whose first char is char `start` of the text) with
/// whether each is highlighted.
pub open spec fn lit_chars(l: Seq<char>, start: int, rs: Seq<(int, int)>, block: Option<VisualBlockRng>, y: int) -> Seq<(char, bool)> {
    Seq::new(l.len(), |k: int| (l[k], is_lit(rs, block, y, k, start + k)))
}

/// The runs a highlighted line is drawn in: a lone highlighted line break
/// shows as a highlighted space.
pub open spec fn line_runs(l: Seq<char>, start: int, rs: Seq<(int, int)>, block: Option<VisualBlockRng>, y: int) -> Seq<(Seq<char>, bool)> {
    if l.len() == 1 && l[0] == '\n' && is_lit(rs, block, y, 0, start) {
        seq![(seq![' '], true)]
    } else {
        runs(lit_chars(l, start, rs, block, y))
    }
}

/// The views of runs of strings.
pub open spec fn runs_view(v: Seq<(String, bool)>) -> Seq<(Seq<char>, bool)> {
    v.map_values(|r: (String, bool)| (r.0@, r.1))
}

/// Whether `i` lies in one of the ranges.
fn in_ranges(rs: &Vec<(usize, usize)>, i: usize) -> (r: bool)
    ensures
        r == exists|k: int| 0 <= k < rs@.len() && (#[trigger] rs@[k]).0 <= i <= rs@[k].1,
{
    let mut k: usize = 0;
    while k < rs.len()
        invariant
            k <= rs@.len(),
            forall|j: int| 0 <= j < k ==> !((#[trigger] rs@[j]).0 <= i <= rs@[j].1),
        decreases rs@.len() - k,
    {
        if rs[k].0 <= i && i <= rs[k].1 {
            return true;
        }
        k += 1;
    }
    false
}

/// The views of inclusive ranges of `usize`.
pub open spec fn ranges_view(v: Seq<(usize, usize)>) -> Seq<(int, int)> {
    v.map_values(|r: (usize, usize)| (r.0 as int, r.1 as int))
}

impl App {
    /// Whether char `i` (column `x` of line `y`) is highlighted.
    fn lit(&self, rs: &Vec<(usize, usize)>, block: Option<VisualBlockRng>, y: usize, x: usize, i: usize) -> (r: bool)
        ensures
            r == is_lit(ranges_view(rs@), block, y as int, x as int, i as int),
    {
        let in_rng = in_ranges(rs, i);
        proof {
            if in_rng {
                let k = choose|k: int| 0 <= k < rs@.len() && (#[trigger] rs@[k]).0 <= i <= rs@[k].1;
                assert(ranges_view(rs@)[k] == (rs@[k].0 as int, rs@[k].1 as int));
            } else {
                assert forall|k: int| 0 <= k < ranges_view(rs@).len() implies !((#[trigger] ranges_view(rs@)[k]).0 <= i
                    <= ranges_view(rs@)[k].1) by {
                    assert(ranges_view(rs@)[k] == (rs@[k].0 as int, rs@[k].1 as int));
                }
            }
        }
        if in_rng {
            return true;
        }
        match block {
            Some(rng) => rng.y_rng[0] <= y && y <= rng.y_rng[1] && rng.x_rng[0] <= x && x <= rng.x_rng[1],
            None => false,
        }
    }

    /// The ranges highlighted on line `line_num` (see `line_ranges`).
    pub fn line_selections(&self, line_num: usize, highlight_text: bool) -> (rs: Vec<(usize, usize)>)
        requires
            line_num < line_count(rope_text(self.rope)),
            rope_fits(rope_text(self.rope)),
        ensures
            ranges_view(rs@) == line_ranges(
                line_start(rope_text(self.rope), line_num as int),
                line_start(rope_text(self.rope), line_num + 1),
                self.matching_bracket_idx,
                self.selections@,
                highlight_text,
            ),
    {
        let ghost t = rope_text(self.rope);
        proof {
            crate::text::lemma_line_bounds(t, line_num as int);
            crate::text::lemma_line_start(t, line_num + 1);
        }
        let line_start_char = rope_line_to_char(&self.rope, line_num);
        let line_end_char = rope_line_to_char(&self.rope, line_num + 1);
        let mut current_selections: Vec<(usize, usize)> = Vec::new();
        // check for matching bracket
        if let Some(i) = self.matching_bracket_idx {
            // only push for current line
            if line_end_char > i && line_start_char <= i {
                current_selections.push((i, i));
            }
        }
        let ghost b = ranges_view(current_selections@);
        assert(b =~= line_ranges(line_start_char as int, line_end_char as int, self.matching_bracket_idx, Seq::empty(), false));
        if highlight_text {
            let mut k: usize = 0;
            while k < self.selections.len()
                invariant
                    k <= self.selections@.len(),
                    ranges_view(current_selections@) == b + sels_on_line(
                        line_start_char as int,
                        line_end_char as int,
                        self.selections@.take(k as int),
                    ),
                decreases self.selections@.len() - k,
            {
                let sel = self.selections[k];
                let start = if sel.ancor <= sel.cursor {
                    sel.ancor
                } else {
                    sel.cursor
                };
                let end = if sel.ancor >= sel.cursor {
                    sel.ancor
                } else {
                    sel.cursor
                };
                let ghost before = current_selections@;
                assert(self.selections@.take(k + 1).drop_last() =~= self.selections@.take(k as int));
                assert(self.selections@.take(k + 1).last() == sel);
                // check if line contains a selection
                if line_end_char > start && line_start_char <= end {
                    current_selections.push((start, end));
                    assert(ranges_view(current_selections@) =~= ranges_view(before).push((start as int, end as int)));
                }
                assert(ranges_view(current_selections@) =~= b + sels_on_line(
                    line_start_char as int,
                    line_end_char as int,
                    self.selections@.take(k + 1),
                ));
                k += 1;
            }
            assert(self.selections@.take(self.selections@.len() as int) =~= self.selections@);
        }
        current_selections
    }

    /// The runs that a highlighted line `line_num` is drawn in (see
    /// `line_runs`).
    pub fn line_runs(&self, line_num: usize, rs: &Vec<(usize, usize)>, block: Option<VisualBlockRng>) -> (runs: Vec<(String, bool)>)
        requires
            line_num < line_count(rope_text(self.rope)),
            rope_fits(rope_text(self.rope)),
        ensures
            runs_view(runs@) == line_runs(
                line_text(rope_text(self.rope), line_num as int),
                line_start(rope_text(self.rope), line_num as int),
                ranges_view(rs@),
                block,
                line_num as int,
            ),
    {
        let ghost t = rope_text(self.rope);
        proof {
            crate::text::lemma_line_bounds(t, line_num as int);
            crate::text::lemma_chars_le_bytes(t);
        }
        let rope_line = rope_get_line(&self.rope, line_num).unwrap();
        let ghost l = slice_text(rope_line);
        let line_length = slice_len_chars(&rope_line);
        let line_start_char = rope_line_to_char(&self.rope, line_num);
        let ghost cs = lit_chars(l, line_start_char as int, ranges_view(rs@), block, line_num as int);
        if line_length == 1 && slice_char(&rope_line, 0) == '\n' && self.lit(rs, block, line_num, 0, line_start_char) {
            let mut space = String::new();
            push_char(&mut space, ' ');
            let v = vec![(space, true)];
            assert(runs_view(v@) =~= seq![(seq![' '], true)]);
            return v;
        }
        let mut line_of_spans: Vec<(String, bool)> = Vec::new();
        let mut char_buffer = String::new();
        let mut highlighting = false;
        let mut char_idx: usize = 0;
        while char_idx < line_length
            invariant
                l == slice_text(rope_line),
                line_length == l.len(),
                char_idx <= line_length,
                line_start_char + line_length <= usize::MAX,
                cs == lit_chars(l, line_start_char as int, ranges_view(rs@), block, line_num as int),
                char_idx == 0 ==> line_of_spans@.len() == 0 && char_buffer@.len() == 0,
                char_idx > 0 ==> ({
                    let r = runs(cs.take(char_idx as int));
                    &&& r.len() > 0
                    &&& runs_view(line_of_spans@) == r.drop_last()
                    &&& r.last() == (char_buffer@, highlighting)
                    &&& char_buffer@.len() > 0
                }),
            decreases line_length - char_idx,
        {
            let c = slice_char(&rope_line, char_idx);
            let in_select_rng = self.lit(rs, block, line_num, char_idx, line_start_char + char_idx);
            let ghost r = runs(cs.take(char_idx as int));
            let ghost old_spans = line_of_spans@;
            assert(cs[char_idx as int] == (c, in_select_rng));
            assert(cs.take(char_idx + 1).drop_last() =~= cs.take(char_idx as int));
            assert(cs.take(char_idx + 1).last() == (c, in_select_rng));
            if in_select_rng {
                if !highlighting && !char_buffer.as_str().is_empty() {
                    line_of_spans.push((char_buffer, false));
                    char_buffer = String::new();
                }
                highlighting = true;
                push_char(&mut char_buffer, c);
            } else {
                if highlighting && !char_buffer.as_str().is_empty() {
                    line_of_spans.push((char_buffer, true));
                    char_buffer = String::new();
                }
                highlighting = false;
                push_char(&mut char_buffer, c);
            }
            proof {
                let r2 = runs(cs.take(char_idx + 1));
                if char_idx > 0 {
                    if r.last().1 == in_select_rng {
                        assert(r2.drop_last() =~= r.drop_last());
                    } else {
                        assert(runs_view(line_of_spans@) =~= runs_view(old_spans).push(r.last()));
                        assert(r.drop_last().push(r.last()) =~= r);
                        assert(r2.drop_last() =~= r);
                    }
                } else {
                    assert(r2.drop_last() =~= Seq::<(Seq<char>, bool)>::empty());
                    assert(runs_view(line_of_spans@) =~= Seq::<(Seq<char>, bool)>::empty());
                }
            }
            char_idx += 1;
        }
        assert(cs.take(line_length as int) =~= cs);
        if !char_buffer.as_str().is_empty() {
            let ghost old_spans = line_of_spans@;
            line_of_spans.push((char_buffer, highlighting));
            proof {
                let r = runs(cs);
                assert(runs_view(line_of_spans@) =~= runs_view(old_spans).push(r.last()));
                assert(r.drop_last().push(r.last()) =~= r);
            }
        } else {
            assert(runs_view(line_of_spans@) =~= Seq::<(Seq<char>, bool)>::empty());
        }
        line_of_spans
    }
}

/// The distance between two numbers.
pub open spec fn distance(a: int, b: int) -> nat {
    if a >= b {
        (a - b) as nat
    } else {
        (b - a) as nat
    }
}

/// The number shown beside line `line_num`: absolute (counted from 1, and
/// followed by a space) on the cursor's line and in command and search mode,
/// else the distance to the cursor's line.
pub open spec fn line_label(line_num: int, cursor_y: int, mode: Mode) -> Seq<char> {
    if line_num == cursor_y || mode == Mode::Command || mode == Mode::Search {
        decimal((line_num + 1) as nat).push(' ')
    } else {
        decimal(distance(line_num, cursor_y))
    }
}

/// The number shown beside line `line_num` (see `line_label`).
pub fn line_number(line_num: usize, cursor_y: usize, mode: Mode) -> (s: String)
    requires
        line_num < usize::MAX,
    ensures
        s@ == line_label(line_num as int, cursor_y as int, mode),
{
    let mut s = String::new();
    if line_num == cursor_y || mode == Mode::Command || mode == Mode::Search {
        // absolute, 1-indexed
        push_decimal(&mut s, (line_num + 1) as u128);
        push_char(&mut s, ' ');
    } else {
        let d = if line_num >= cursor_y {
            line_num - cursor_y
        } else {
            cursor_y - line_num
        };
        push_decimal(&mut s, d as u128);
        assert(s@ =~= decimal(distance(line_num as int, cursor_y as int)));
    }
    s
}

/// The width of the line-number column for a text of `n` lines: one more
/// than the digits of `n` (one for no line).
pub open spec fn gutter_digits(n: nat) -> nat {
    if n == 0 {
        1
    } else {
        decimal(n).len() + 1
    }
}

proof fn lemma_decimal_len(n: nat)
    ensures
        decimal(n).len() >= 1,
        decimal(n).len() <= n + 1,
    decreases n,
{
    if n >= 10 {
        lemma_decimal_len(n / 10);
    }
}

/// The width of the line-number column (see `gutter_digits`).
pub fn gutter_width(n: usize) -> (d: u32)
    ensures
        d == gutter_digits(n as nat),
{
    if n == 0 {
        return 1;
    }
    let mut m = n;
    let mut digits: u32 = 1;
    while m >= 10
        invariant
            1 <= m <= n,
            digits <= 20,
            decimal(n as nat).len() == decimal(m as nat).len() + digits - 1,
        decreases m,
    {
        proof {
            lemma_decimal_len(m as nat);
            assert(decimal(m as nat).len() == decimal((m / 10) as nat).len() + 1);
            lemma_decimal_digits_bound(n as nat, m as nat, digits as nat);
        }
        m = m / 10;
        digits = digits + 1;
    }
    assert(decimal(m as nat).len() == 1);
    digits + 1
}

/// Cutting the last digits off `n` down to `m` cut `digits - 1` of them; a
/// `usize` has at most 20.
proof fn lemma_decimal_digits_bound(n: nat, m: nat, digits: nat)
    requires
        m >= 10,
        n <= 0xffff_ffff_ffff_ffff,
        1 <= m <= n,
        decimal(n).len() == decimal(m).len() + digits - 1,
    ensures
        digits < 20,
{
    lemma_decimal_len_log(n);
    lemma_decimal_len(m);
    if decimal(m).len() < 2 {
        assert(decimal(m).len() == decimal(m / 10).len() + 1);
        lemma_decimal_len(m / 10);
    }
}

/// A `usize` has at most 20 decimal digits.
proof fn lemma_decimal_len_log(n: nat)
    requires
        n <= 0xffff_ffff_ffff_ffff,
    ensures
        decimal(n).len() <= 20,
{
    assert(pow10(20) == 100000000000000000000) by {
        reveal_with_fuel(pow10, 21);
    }
    lemma_decimal_len_le(n, 20, 100000000000000000000);
}

proof fn lemma_decimal_len_le(n: nat, k: nat, p: nat)
    requires
        n < p,
        k >= 1,
        p == pow10(k),
    ensures
        decimal(n).len() <= k,
    decreases k,
{
    if n >= 10 {
        assert(k >= 2) by {
            if k == 1 {
                assert(pow10(1) == 10 * pow10(0));
            }
        }
        assert(pow10(k) == 10 * pow10((k - 1) as nat));
        assert(n / 10 < pow10((k - 1) as nat));
        lemma_decimal_len_le(n / 10, (k - 1) as nat, pow10((k - 1) as nat));
    }
}

/// `10` to the power `k`.
pub open spec fn pow10(k: nat) -> nat
    decreases k,
{
    if k == 0 {
        1
    } else {
        10 * pow10((k - 1) as nat)
    }
}

/// Where the cursor shows on the screen: on the command bar as it is in
/// command and search mode, else beside the gutter and relative to the
/// first line in view.
pub open spec fn cursor_screen(mode: Mode, c: CursorPos, top: int, x_offset: int) -> (int, int) {
    if mode == Mode::Command || mode == Mode::Search {
        (c.x as int, c.y as int)
    } else {
        (c.x + x_offset, sat_sub(c.y as int, top))
    }
}

/// The path in the status line, with ` [+]` when the text has changed.
pub open spec fn path_label(path: Seq<char>, dirty: bool) -> Seq<char> {
    if dirty {
        path + seq![' ', '[', '+', ']']
    } else {
        path
    }
}

impl App {
    /// Where the cursor shows on the screen (see `cursor_screen`).
    pub fn cursor_on_screen(&self, x_offset: usize) -> (r: (usize, usize))
        requires
            self.cursor_pos.x + x_offset <= usize::MAX,
        ensures
            (r.0 as int, r.1 as int) == cursor_screen(self.mode, self.cursor_pos, self.top_line as int, x_offset as int),
    {
        if self.mode == Mode::Command || self.mode == Mode::Search {
            (self.cursor_pos.x, self.cursor_pos.y)
        } else {
            let y = if self.cursor_pos.y >= self.top_line {
                self.cursor_pos.y - self.top_line
            } else {
                0
            };
            (self.cursor_pos.x + x_offset, y)
        }
    }

    /// The path in the status line (see `path_label`).
    pub fn path_text(&self) -> (s: String)
        ensures
            s@ == path_label(self.path@, self.dirty),
    {
        let mut s = self.path.clone();
        if self.dirty {
            push_char(&mut s, ' ');
            push_char(&mut s, '[');
            push_char(&mut s, '+');
            push_char(&mut s, ']');
        }
        s
    }

    /// The cursor's line and column (counted from 1; those it left in command
    /// and search mode) and how far through the file it is.
    pub fn location_text(&self) -> (s: String)
        requires
            self.cursor_pos.y < usize::MAX,
            self.cursor_pos.x < usize::MAX,
            self.cursor_pos.preferred_y < usize::MAX,
            self.cursor_pos.preferred_x < usize::MAX,
            self.status_y() * 100 <= usize::MAX,
        ensures
            s@ == ({
                let (y, x) = if self.mode != Mode::Command && self.mode != Mode::Search {
                    (self.cursor_pos.y, self.cursor_pos.x)
                } else {
                    (self.cursor_pos.preferred_y, self.cursor_pos.preferred_x)
                };
                decimal((y + 1) as nat) + seq![','] + decimal((x + 1) as nat) + seq![' ', ' ', ' ', ' '] + crate::editor::position_text(
                    self.status_y() as int,
                    sat_sub(line_count(rope_text(self.rope)) as int, 2),
                    self.main_height as int,
                )
            }),
    {
        let (y, x) = if self.mode != Mode::Command && self.mode != Mode::Search {
            (self.cursor_pos.y, self.cursor_pos.x)
        } else {
            (self.cursor_pos.preferred_y, self.cursor_pos.preferred_x)
        };
        let mut s = String::new();
        push_decimal(&mut s, (y + 1) as u128);
        push_char(&mut s, ',');
        push_decimal(&mut s, (x + 1) as u128);
        push_char(&mut s, ' ');
        push_char(&mut s, ' ');
        push_char(&mut s, ' ');
        push_char(&mut s, ' ');
        let pos = self.file_position();
        s.append(pos.as_str());
        s
    }
}

} // verus!
