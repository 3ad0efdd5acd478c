//! The editor's state and what it does with it: where the cursor stands,
//! how the view scrolls, and what changing mode does to the command bar.

use vstd::prelude::*;
use vstd::utf8::encode_utf8;
use std::collections::HashMap;
use ropey::{Rope, RopeSlice};
use crate::text::{
    rope_new, rope_len_bytes, rope_text, rope_fits, line_count, line_start, line_len, line_text, breaks_before, slice_text,
    rope_len_chars, rope_len_lines, rope_line_to_char, rope_char_to_line, rope_get_line, rope_line,
    rope_char, rope_insert, rope_remove, rope_slice, rope_get_slice, slice_to_string, slice_len_chars, slice_char, lemma_char_line,
    lemma_line_bounds,
};
use crate::types::{YankBuffer, YankView, VisualBlockRng, VisualSelection, CursorPos, Mode};
use crate::commands::{
    Motion, Action, Command, CommandView, Parser, ParserView, empty_parser, no_command, step, opt_view,
    built_from, key_bindings,
};
use crate::trie::TrieNode;
use crate::undo::{ActionView, actions_view};
use crate::undo;
use crate::helpers::{size_text, format_file_size, decimal, push_decimal, query_of, replacement_of, extract_query, extract_replacment};
use crate::strings::push_char;
use crate::chars::{is_word, is_white, is_whitespace};
use crate::scan::{first_from, lemma_first_from_is};
use crate::ranges::{
    find_matching_bracket,
    min_int, column_on_line, last_target_line, is_indent, next_empty_line, prev_empty_line,
    next_word, next_big_word, word_end, back_word, run_stop, big_run_stop, next_search_result,
    prev_search_result, opt_range, next_empty_line_idx, prev_empty_line_idx, next_word_idx, upper_word_idx,
    word_end_idx, upper_word_end_idx, prev_word_idx, upper_back_word_idx, cursor_left_idx,
    cursor_right_idx, cursor_up_idx, cursor_down_idx, first_word_idx, line_start_idx, line_end_idx,
    file_end_idx, is_empty_line, next_search_result_idx, prev_search_result_idx, sat_sub,
    matching_bracket, bracket_pair, is_opening_bracket, is_closing_bracket, leading_blanks, is_opening, new_line_below,
    is_closing, leading_whitespace, new_line_below_idx, new_line_above_idx,
};
use crate::keys::{KeyCode, KeyEvent, CONTROL};

verus! {

/// Lines kept between the cursor and the top or bottom of the view.
pub const SCROLL_OFFSET: usize = 10;

/// The editor: the text and the cursor on it, the mode, the view, the
/// command bar, selections, yank registers (keyed by the register's char
/// code), the undo and redo stacks, and the key parser.
pub struct App {
    pub show_first_time_popup: bool,
    pub lines_in_view: [usize; 2],
    pub last_command: Command,
    pub last_insertion: (usize, String),
    pub redraw: bool,
    pub dirty: bool,
    pub mode: Mode,
    pub parser: Parser,
    pub cursor_pos: CursorPos,
    pub top_line: usize,
    pub main_height: usize,
    pub rope: Rope,
    pub command_bar: String,
    pub path: String,
    pub selections: Vec<VisualSelection>,
    pub yank_buffer: HashMap<u32, YankBuffer>,
    pub highlight_yank: bool,
    pub query: String,
    pub visual_block_rng: Option<VisualBlockRng>,
    pub matching_bracket_idx: Option<usize>,
    pub undo_vec: Vec<undo::Action>,
    pub redo_vec: Vec<undo::Action>,
}

/// What the editor holds, as values: the text, the strings as chars, the
/// stacks and registers by their views.
pub struct AppView {
    pub show_first_time_popup: bool,
    pub lines_in_view: [usize; 2],
    pub last_command: CommandView,
    pub last_insertion: (usize, Seq<char>),
    pub redraw: bool,
    pub dirty: bool,
    pub mode: Mode,
    pub parser: ParserView,
    pub keys: TrieNode,
    pub cursor: CursorPos,
    pub top_line: usize,
    pub main_height: usize,
    pub text: Seq<char>,
    pub command_bar: Seq<char>,
    pub path: Seq<char>,
    pub selections: Seq<VisualSelection>,
    pub yank: Map<u32, YankView>,
    pub highlight_yank: bool,
    pub query: Seq<char>,
    pub block: Option<VisualBlockRng>,
    pub bracket: Option<usize>,
    pub undo: Seq<ActionView>,
    pub redo: Seq<ActionView>,
}

impl View for App {
    type V = AppView;

    open spec fn view(&self) -> AppView {
        AppView {
            show_first_time_popup: self.show_first_time_popup,
            lines_in_view: self.lines_in_view,
            last_command: self.last_command@,
            last_insertion: (self.last_insertion.0, self.last_insertion.1@),
            redraw: self.redraw,
            dirty: self.dirty,
            mode: self.mode,
            parser: self.parser@,
            keys: self.parser.keys(),
            cursor: self.cursor_pos,
            top_line: self.top_line,
            main_height: self.main_height,
            text: rope_text(self.rope),
            command_bar: self.command_bar@,
            path: self.path@,
            selections: self.selections@,
            yank: self.yank_buffer@.map_values(|b: YankBuffer| b@),
            highlight_yank: self.highlight_yank,
            query: self.query@,
            block: self.visual_block_rng,
            bracket: self.matching_bracket_idx,
            undo: actions_view(self.undo_vec@),
            redo: actions_view(self.redo_vec@),
        }
    }
}

/// The char index of the cursor.
pub open spec fn cursor_idx(a: AppView) -> int {
    line_start(a.text, a.cursor.y as int) + a.cursor.x
}

/// The editor with its cursor put on char `i` (on the last char when `i`
/// lies past it).
pub open spec fn cursor_put(a: AppView, i: int) -> AppView {
    AppView { cursor: cursor_on(a.text, i, a.cursor), ..a }
}

/// The editor with its cursor kept off the line break, but in visual mode.
pub open spec fn kept_off_break(a: AppView) -> AppView {
    if a.mode != Mode::Visual {
        AppView { cursor: clamped_cursor(a.text, a.cursor), ..a }
    } else {
        a
    }
}

/// The editor with its view scrolled to show line `target_y`.
pub open spec fn scrolled(a: AppView, target_y: int) -> AppView {
    AppView { top_line: scrolled_top(a.top_line as int, target_y, a.main_height as int) as usize, ..a }
}

/// The editor after a change of mode to `target`.
pub open spec fn mode_changed(a: AppView, target: Mode) -> AppView {
    AppView {
        mode: target,
        command_bar: bar_after(a.mode, target, a.command_bar),
        selections: if clears_selections(target) {
            Seq::empty()
        } else {
            a.selections
        },
        undo: if closes_insertion(a.mode, target) {
            a.undo.push(ActionView::Insert { idx: a.last_insertion.0, content: a.last_insertion.1 })
        } else {
            a.undo
        },
        ..a
    }
}

/// The editor with its parser reset.
pub open spec fn parser_reset(a: AppView) -> AppView {
    AppView { parser: empty_parser(), ..a }
}

/// The editor back in normal mode, the cursor off the line break and in view.
pub open spec fn back_to_normal(a: AppView) -> AppView {
    let b = kept_off_break(parser_reset(mode_changed(a, Mode::Normal)));
    scrolled(b, b.cursor.y as int)
}

/// The editor after the insert-mode key `key`.
pub open spec fn typed_in_insert(a: AppView, key: KeyCode) -> AppView {
    let eff = insert_effect(a.text, a.cursor, a.last_insertion.1, key);
    let b = AppView { text: eff.0, last_insertion: (a.last_insertion.0, eff.1), cursor: eff.2, ..a };
    scrolled(b, eff.2.y as int)
}

/// The first line shown after scrolling so that line `target_y` stands at
/// least `SCROLL_OFFSET` lines inside a view of `height` lines whose first
/// line was `top`.
pub open spec fn scrolled_top(top: int, target_y: int, height: int) -> int {
    let inner = height - 1 - SCROLL_OFFSET;
    if sat_sub(target_y, top) >= inner {
        sat_sub(target_y, inner)
    } else if target_y <= top + SCROLL_OFFSET {
        sat_sub(target_y, SCROLL_OFFSET as int)
    } else {
        top
    }
}

/// How far through the file line `y` is, as the status line shows it: `Top`
/// when the whole file fits in the view or at the first line, `Bot` at the
/// last, else the percentage.
pub open spec fn position_text(y: int, lines: int, height: int) -> Seq<char> {
    if lines <= height || y == 0 {
        seq!['T', 'o', 'p']
    } else if y == lines {
        seq!['B', 'o', 't']
    } else {
        decimal(((y * 100) / lines) as nat).push('%')
    }
}

/// The last column that the cursor may stand on in normal mode on a line:
/// not on its line break.
pub open spec fn normal_max_x(l: Seq<char>) -> int {
    let n = l.len() as int;
    if n > 0 && (l[n - 1] == '\n' || l[n - 1] == '\r') {
        sat_sub(n, 2)
    } else {
        sat_sub(n, 1)
    }
}

/// The cursor `c` put on char `i` of `t` (on the last char when `i` lies
/// past it), its preferred place kept.
pub open spec fn cursor_on(t: Seq<char>, i: int, c: CursorPos) -> CursorPos {
    let s = safe_idx(t, i);
    let y = breaks_before(t, s);
    CursorPos { y: y as usize, x: (s - line_start(t, y as int)) as usize, ..c }
}

/// The cursor once kept off the line break of its line.
pub open spec fn clamped_cursor(t: Seq<char>, c: CursorPos) -> CursorPos {
    if c.y < line_count(t) && c.x > normal_max_x(line_text(t, c.y as int)) {
        CursorPos { x: normal_max_x(line_text(t, c.y as int)) as usize, ..c }
    } else {
        c
    }
}

/// The char index that a cursor index becomes once kept within the text.
pub open spec fn safe_idx(t: Seq<char>, i: int) -> int {
    if i <= sat_sub(t.len() as int, 1) {
        i
    } else {
        sat_sub(t.len() as int, 1)
    }
}

/// The length in bytes that `str::len` reports for a string of chars.
pub open spec fn str_len(s: Seq<char>) -> usize {
    encode_utf8(s).len() as usize
}

/// The command bar after a change of mode from `from` to `target`.
pub open spec fn bar_after(from: Mode, target: Mode, bar: Seq<char>) -> Seq<char> {
    match target {
        Mode::Normal => {
            let kept = if from != Mode::Search && from != Mode::Command {
                Seq::empty()
            } else {
                bar
            };
            if str_len(kept) == 1 {
                Seq::empty()
            } else {
                kept
            }
        },
        Mode::Search => seq!['/'],
        Mode::Command => seq![':'],
        Mode::Insert => "-- INSERT --"@,
        Mode::Visual => "-- VISUAL --"@,
        Mode::VisualLine(_) => "-- VISUAL LINE --"@,
        Mode::VisualBlock => "-- VISUAL BLOCK --"@,
        Mode::Exit => bar,
    }
}

/// Whether a change of mode to `target` clears the selections.
pub open spec fn clears_selections(target: Mode) -> bool {
    target == Mode::Search || target == Mode::Insert
}

/// Whether a change of mode from `from` to `target` closes an insertion,
/// which then goes on the undo stack.
pub open spec fn closes_insertion(from: Mode, target: Mode) -> bool {
    target == Mode::Normal && from == Mode::Insert
}

impl App {
    /// The line and column of the cursor fit the text.
    pub open spec fn cursor_fits(self) -> bool {
        &&& self.cursor_pos.y < line_count(rope_text(self.rope))
        &&& line_start(rope_text(self.rope), self.cursor_pos.y as int) + self.cursor_pos.x <= usize::MAX
    }

    /// The line that the status line reports: the line the cursor left for
    /// the command bar in command mode, else the cursor's line.
    pub open spec fn status_y(self) -> usize {
        if self.mode == Mode::Command {
            self.cursor_pos.preferred_y
        } else {
            self.cursor_pos.y
        }
    }

    /// The char index of the cursor.
    pub open spec fn char_idx(self) -> int {
        line_start(rope_text(self.rope), self.cursor_pos.y as int) + self.cursor_pos.x
    }

    pub fn get_char_idx(&self) -> (r: usize)
        requires
            self.cursor_pos.y <= line_count(rope_text(self.rope)),
            line_start(rope_text(self.rope), self.cursor_pos.y as int) + self.cursor_pos.x <= usize::MAX,
        ensures
            r == self.char_idx(),
    {
        rope_line_to_char(&self.rope, self.cursor_pos.y) + self.cursor_pos.x
    }

    /// Puts the cursor on char `char_idx`, or on the last char when it lies
    /// past the end.
    pub fn update_cursor_from_char_idx(&mut self, char_idx: usize)
        ensures
            final(self)@ == cursor_put(old(self)@, char_idx as int),
            final(self).rope == old(self).rope,
    {
        let ghost t = rope_text(self.rope);
        let total_chars = rope_len_chars(&self.rope);
        let last = if total_chars > 0 {
            total_chars - 1
        } else {
            0
        };
        let safe = if char_idx < last {
            char_idx
        } else {
            last
        };
        proof {
            lemma_char_line(t, safe as int);
            lemma_breaks_le(t, safe as int);
        }
        let y = rope_char_to_line(&self.rope, safe);
        self.cursor_pos.y = y;
        self.cursor_pos.x = safe - rope_line_to_char(&self.rope, y);
    }

    /// Moves the cursor off the line break (in every mode but visual).
    pub fn ensure_valid_normal_pos(&mut self)
        ensures
            final(self)@ == kept_off_break(old(self)@),
            final(self).rope == old(self).rope,
    {
        if self.mode == Mode::Visual {
            return;
        }
        if let Some(line) = rope_get_line(&self.rope, self.cursor_pos.y) {
            let line_len = slice_len_chars(&line);
            let has_newline = line_len > 0 && (slice_char(&line, line_len - 1) == '\n' || slice_char(
                &line,
                line_len - 1,
            ) == '\r');
            let max_x = if has_newline {
                // -1 to get index, -1 to stay off the \n
                if line_len >= 2 {
                    line_len - 2
                } else {
                    0
                }
            } else {
                // If no newline (EOF), just -1 for index
                if line_len >= 1 {
                    line_len - 1
                } else {
                    0
                }
            };
            if self.cursor_pos.x > max_x {
                self.cursor_pos.x = max_x;
            }
        }
    }

    /// Scrolls the view so that line `target_y` keeps `SCROLL_OFFSET` lines
    /// of room above and below.
    pub fn scroll(&mut self, target_y: usize)
        requires
            old(self).main_height >= SCROLL_OFFSET + 1,
            old(self).top_line + SCROLL_OFFSET <= usize::MAX,
        ensures
            final(self)@ == scrolled(old(self)@, target_y as int),
            final(self).rope == old(self).rope,
    {
        let offset = SCROLL_OFFSET;
        let height = self.main_height - 1 - offset;
        let below = if target_y >= self.top_line {
            target_y - self.top_line
        } else {
            0
        };
        if below >= height {
            // scroll down
            self.top_line = if target_y >= height {
                target_y - height
            } else {
                0
            };
        } else if target_y <= self.top_line + offset {
            // scroll up
            self.top_line = if target_y >= offset {
                target_y - offset
            } else {
                0
            };
        }
    }

    /// How far through the file the cursor is: `Top`, `Bot` or a percentage.
    pub fn file_position(&self) -> (s: String)
        requires
            self.status_y() * 100 <= usize::MAX,
        ensures
            s@ == position_text(
                self.status_y() as int,
                sat_sub(line_count(rope_text(self.rope)) as int, 2),
                self.main_height as int,
            ),
    {
        let y = if self.mode == Mode::Command {
            self.cursor_pos.preferred_y
        } else {
            self.cursor_pos.y
        };
        let n = rope_len_lines(&self.rope);
        let lines = if n >= 2 {
            n - 2
        } else {
            0
        };
        let mut s = String::new();
        if lines <= self.main_height || y == 0 {
            push_char(&mut s, 'T');
            push_char(&mut s, 'o');
            push_char(&mut s, 'p');
            return s;
        }
        if y == lines {
            push_char(&mut s, 'B');
            push_char(&mut s, 'o');
            push_char(&mut s, 't');
            return s;
        }
        let file_percent = (y * 100) / lines;
        push_decimal(&mut s, file_percent as u128);
        push_char(&mut s, '%');
        s
    }
}

/// A char index lies on a line no later than the number of its line breaks.
proof fn lemma_breaks_le(t: Seq<char>, i: int)
    requires
        0 <= i <= t.len(),
    ensures
        breaks_before(t, i) <= i,
{
    crate::text::lemma_breaks_step(t, 0, i);
}

impl App {
    /// Changes to mode `target_mode`: the command bar shows the new mode (or
    /// keeps a search or command line on the way back to normal mode), search
    /// and insert mode drop the selections, and leaving insert mode puts the
    /// insertion on the undo stack.
    pub fn change_mode(&mut self, target_mode: Mode)
        ensures
            final(self)@ == mode_changed(old(self)@, target_mode),
            final(self).rope == old(self).rope,
    {
        match target_mode {
            Mode::Normal => {
                if self.mode != Mode::Search && self.mode != Mode::Command {
                    self.command_bar = String::new();
                }
                if self.command_bar.as_str().len() == 1 {
                    self.command_bar = String::new();
                }
                if self.mode == Mode::Insert {
                    let action = undo::Action::Insert {
                        idx: self.last_insertion.0,
                        content: self.last_insertion.1.clone(),
                    };
                    self.undo_vec.push(action);
                    assert(actions_view(self.undo_vec@) =~= actions_view(old(self).undo_vec@).push(
                        ActionView::Insert { idx: old(self).last_insertion.0, content: old(self).last_insertion.1@ },
                    ));
                }
            },
            Mode::Search => {
                self.selections.clear();
                self.command_bar = String::new();
                push_char(&mut self.command_bar, '/');
            },
            Mode::Command => {
                self.command_bar = String::new();
                push_char(&mut self.command_bar, ':');
            },
            Mode::Insert => {
                self.selections.clear();
                self.command_bar = String::from_str("-- INSERT --");
            },
            Mode::Visual => {
                self.command_bar = String::from_str("-- VISUAL --");
            },
            Mode::VisualLine(_) => {
                self.command_bar = String::from_str("-- VISUAL LINE --");
            },
            Mode::VisualBlock => {
                self.command_bar = String::from_str("-- VISUAL BLOCK --");
            },
            _ => {},
        }
        self.mode = target_mode;
    }

    pub fn exit(&mut self)
        ensures
            final(self)@ == (AppView { mode: Mode::Exit, ..old(self)@ }),
            final(self).rope == old(self).rope,
    {
        self.mode = Mode::Exit;
    }
}

impl App {
    /// Back to normal mode: the parser forgets what was typed, the cursor
    /// leaves the line break and the view follows it.
    pub fn return_to_normal_mode(&mut self)
        requires
            old(self).main_height >= SCROLL_OFFSET + 1,
            old(self).top_line + SCROLL_OFFSET <= usize::MAX,
        ensures
            final(self)@ == back_to_normal(old(self)@),
            final(self).rope == old(self).rope,
    {
        self.change_mode(Mode::Normal);
        self.parser.reset();
        self.ensure_valid_normal_pos();
        self.scroll(self.cursor_pos.y);
    }
}

/// The pair of chars that typing `c` in insert mode completes: a bracket
/// pair, or a quote (`"`, `'`, `` ` ``) with itself.
pub open spec fn auto_pair(c: char) -> Option<(char, char)> {
    match bracket_pair(c) {
        Some(p) => Some(p),
        None => if c == '"' || c == '\'' || c == '`' {
            Some((c, c))
        } else {
            None
        },
    }
}

/// What typing `c` at char `idx` of `t` inserts: an opening char with its
/// closing one, nothing for a closing bracket typed over the same char, else `c`.
pub open spec fn typed_text(t: Seq<char>, idx: int, c: char) -> Seq<char> {
    match auto_pair(c) {
        Some(p) => if p.0 == c {
            seq![c, p.1]
        } else if t[idx] == c {
            Seq::empty()
        } else {
            seq![c]
        },
        None => seq![c],
    }
}

/// Whether typing `c` at `idx` reads the char there (a closing bracket does).
pub open spec fn reads_next(c: char) -> bool {
    auto_pair(c) matches Some(p) && p.0 != c
}

fn auto_pair_of(c: char) -> (r: Option<(char, char)>)
    ensures
        r == auto_pair(c),
{
    if c == '[' || c == ']' {
        Some(('[', ']'))
    } else if c == '{' || c == '}' {
        Some(('{', '}'))
    } else if c == '(' || c == ')' {
        Some(('(', ')'))
    } else if c == '<' || c == '>' {
        Some(('<', '>'))
    } else if c == '"' || c == '\'' || c == '`' {
        Some((c, c))
    } else {
        None
    }
}

/// Four spaces: what Tab inserts.
pub open spec fn tab_text() -> Seq<char> {
    seq![' ', ' ', ' ', ' ']
}

/// The text that Enter inserts at char `idx` of line `y`: a line break and
/// the line's indentation; between an opening and a closing bracket also an
/// indented empty line; after an opening bracket one more level.
pub open spec fn enter_text(t: Seq<char>, y: int, idx: int) -> Seq<char> {
    let ws = leading_blanks(line_text(t, y));
    let left = t[sat_sub(idx, 1)];
    if is_opening_bracket(left) && is_closing_bracket(t[idx]) {
        seq!['\n'] + ws + seq![' ', ' ', ' ', ' ', '\n'] + ws
    } else if is_opening_bracket(left) {
        seq!['\n'] + ws + tab_text()
    } else {
        seq!['\n'] + ws
    }
}

/// The text after inserting `s` at `i`.
pub open spec fn inserted(t: Seq<char>, i: int, s: Seq<char>) -> Seq<char> {
    t.take(i) + s + t.skip(i)
}

/// The text after removing the chars in `a..b`.
pub open spec fn removed(t: Seq<char>, a: int, b: int) -> Seq<char> {
    t.take(a) + t.skip(b)
}

/// A string without its last char, if it has one (`String::pop`).
pub open spec fn popped(s: Seq<char>) -> Seq<char> {
    if s.len() > 0 {
        s.drop_last()
    } else {
        s
    }
}

/// What the insert-mode key `key` does to the text, the recorded insertion
/// and the cursor of an editor whose text is `t`, cursor `c`, insertion `li`.
pub open spec fn insert_effect(t: Seq<char>, c: CursorPos, li: Seq<char>, key: KeyCode) -> (Seq<char>, Seq<char>, CursorPos) {
    let idx = line_start(t, c.y as int) + c.x;
    match key {
        KeyCode::Char(ch) => {
            let s = typed_text(t, idx, ch);
            (inserted(t, idx, s), li + s, CursorPos { x: (c.x + 1) as usize, ..c })
        },
        KeyCode::Tab => (inserted(t, idx, tab_text()), li + tab_text(), CursorPos { x: (c.x + 4) as usize, ..c }),
        KeyCode::Backspace => {
            if c.x > 0 {
                let pair = is_closing_bracket(t[idx]) && is_opening_bracket(t[idx - 1]);
                (
                    removed(t, idx - 1, if pair { idx + 1 } else { idx }),
                    popped(li),
                    CursorPos { x: (c.x - 1) as usize, ..c },
                )
            } else if c.y > 0 {
                let i = line_start(t, c.y as int);
                (
                    removed(t, i - 1, i),
                    popped(li),
                    CursorPos { y: (c.y - 1) as usize, x: (line_len(t, c.y - 1) - 1) as usize, ..c },
                )
            } else {
                (t, popped(li), c)
            }
        },
        KeyCode::Enter => {
            let ws = leading_blanks(line_text(t, c.y as int));
            let s = enter_text(t, c.y as int, idx);
            if is_opening_bracket(t[sat_sub(idx, 1)]) {
                let t2 = inserted(t, idx, s);
                (t2, li + seq!['\n'], cursor_on(t2, idx + str_len(ws) + 5, c))
            } else {
                (inserted(t, idx, s), li + s, CursorPos { y: (c.y + 1) as usize, x: str_len(ws), ..c })
            }
        },
        _ => (t, li, c),
    }
}

/// What an insert-mode key needs of the editor: the char it reads and the
/// places it writes lie in the text, and its arithmetic fits in `usize`.
pub open spec fn insert_ok(t: Seq<char>, c: CursorPos, key: KeyCode) -> bool {
    let idx = line_start(t, c.y as int) + c.x;
    &&& c.y < line_count(t)
    &&& idx <= t.len()
    &&& idx + 1 <= usize::MAX
    &&& rope_fits(t)
    &&& match key {
        KeyCode::Char(ch) => c.x + 1 <= usize::MAX && (reads_next(ch) ==> idx < t.len()),
        KeyCode::Tab => c.x + 4 <= usize::MAX,
        KeyCode::Backspace => c.x > 0 ==> idx < t.len(),
        KeyCode::Enter => idx < t.len() && idx + str_len(leading_blanks(line_text(t, c.y as int))) + 5
            <= usize::MAX,
        _ => true,
    }
}

/// Removes the last char of `s`, if any (`String::pop`).
#[verifier::external_body]
fn pop_char(s: &mut String) -> (r: Option<char>)
    ensures
        final(s)@ == popped(old(s)@),
        old(s)@.len() > 0 ==> r == Some(old(s)@.last()),
        old(s)@.len() == 0 ==> r is None,
{
    s.pop()
}

impl App {
    /// A key typed in insert mode: chars (with their closing pair), Tab,
    /// Backspace (taking an empty bracket pair, or joining lines) and Enter
    /// (keeping the indentation); the insertion is recorded and the view
    /// follows the cursor.
    pub fn insert_text(&mut self, e: KeyEvent)
        requires
            insert_ok(rope_text(old(self).rope), old(self).cursor_pos, e.code),
            old(self).main_height >= SCROLL_OFFSET + 1,
            old(self).top_line + SCROLL_OFFSET <= usize::MAX,
        ensures
            final(self)@ == typed_in_insert(old(self)@, e.code),
    {
        self.apply_insert_key(e);
        self.scroll(self.cursor_pos.y);
    }

    #[verifier::rlimit(60)]
    fn apply_insert_key(&mut self, e: KeyEvent)
        requires
            insert_ok(rope_text(old(self).rope), old(self).cursor_pos, e.code),
        ensures
            ({
                let eff = insert_effect(
                    rope_text(old(self).rope),
                    old(self).cursor_pos,
                    old(self).last_insertion.1@,
                    e.code,
                );
                final(self)@ == AppView {
                    text: eff.0,
                    last_insertion: (old(self).last_insertion.0, eff.1),
                    cursor: eff.2,
                    ..old(self)@
                }
            }),
    {
        let ghost t = rope_text(self.rope);
        proof {
            crate::text::lemma_line_bounds(t, self.cursor_pos.y as int);
        }
        let mut text_to_insert: Option<String> = None;
        let idx = self.get_char_idx();
        match e.code {
            KeyCode::Char(c) => {
                let mut text = String::new();
                push_char(&mut text, c);
                if let Some(pair) = auto_pair_of(c) {
                    if pair.0 == c {
                        push_char(&mut text, pair.1);
                    } else {
                        if rope_char(&self.rope, idx) == c {
                            text = String::new();
                        }
                    }
                }
                if !text.as_str().is_empty() {
                    text_to_insert = Some(text);
                } else {
                    assert(inserted(t, idx as int, text@) =~= t);
                }
                self.cursor_pos.x += 1;
            },
            KeyCode::Tab => {
                text_to_insert = Some(String::from_str("    "));
                proof {
                    reveal_strlit("    ");
                }
                self.cursor_pos.x += 4;
            },
            KeyCode::Backspace => {
                let x = self.cursor_pos.x;
                let y = self.cursor_pos.y;
                pop_char(&mut self.last_insertion.1);
                if x > 0 {
                    // delete the char to the left, or an empty bracket pair
                    proof {
                        crate::text::lemma_line_start_mono(t, 0, y as int);
                    }
                    if is_closing(rope_char(&self.rope, idx)) && is_opening(rope_char(&self.rope, idx - 1)) {
                        rope_remove(&mut self.rope, idx - 1, idx + 1);
                    } else {
                        rope_remove(&mut self.rope, idx - 1, idx);
                    }
                    self.cursor_pos.x = x - 1;
                } else if y > 0 {
                    // join the line to the one above
                    let prev_line_len = slice_len_chars(&rope_line(&self.rope, y - 1));
                    let line_idx = rope_line_to_char(&self.rope, y);
                    proof {
                        crate::text::lemma_line_start(t, y as int);
                        crate::text::lemma_line_bounds(t, y - 1);
                        lemma_prev_line_nonempty(t, y as int);
                    }
                    rope_remove(&mut self.rope, line_idx - 1, line_idx);
                    self.cursor_pos.y = y - 1;
                    self.cursor_pos.x = prev_line_len - 1;
                }
            },
            KeyCode::Enter => {
                let y = self.cursor_pos.y;
                let left_char = rope_char(&self.rope, if idx > 0 { idx - 1 } else { 0 });
                let c = rope_char(&self.rope, idx);
                let curr_line = rope_line(&self.rope, y);
                let whitespace = leading_whitespace(&curr_line);
                let mut text = String::new();
                push_char(&mut text, '\n');
                text.append(whitespace.as_str());
                if is_opening(left_char) && is_closing(c) {
                    text.append("    \n");
                    text.append(whitespace.as_str());
                    proof {
                        reveal_strlit("    \n");
                        assert(text@ =~= enter_text(t, y as int, idx as int));
                    }
                    rope_insert(&mut self.rope, idx, text.as_str());
                    push_char(&mut self.last_insertion.1, '\n');
                    self.update_cursor_from_char_idx(idx + whitespace.as_str().len() + 5);
                } else if is_opening(left_char) {
                    text.append("    ");
                    proof {
                        reveal_strlit("    ");
                        assert(text@ =~= enter_text(t, y as int, idx as int));
                    }
                    rope_insert(&mut self.rope, idx, text.as_str());
                    push_char(&mut self.last_insertion.1, '\n');
                    self.update_cursor_from_char_idx(idx + whitespace.as_str().len() + 5);
                } else {
                    assert(text@ =~= enter_text(t, y as int, idx as int));
                    self.cursor_pos.y = y + 1;
                    self.cursor_pos.x = whitespace.as_str().len();
                    text_to_insert = Some(text);
                }
            },
            _ => {},
        }
        if let Some(text) = text_to_insert {
            rope_insert(&mut self.rope, idx, text.as_str());
            self.last_insertion.1.append(text.as_str());
        }
        proof {
            let eff = insert_effect(t, old(self).cursor_pos, old(self).last_insertion.1@, e.code);
            assert(rope_text(self.rope) == eff.0);
            assert(self.last_insertion.1@ == eff.1);
            assert(self.cursor_pos == eff.2);
        }
    }
}

/// A line above another ends with its line break, so it is not empty.
proof fn lemma_prev_line_nonempty(t: Seq<char>, y: int)
    requires
        0 < y < line_count(t),
    ensures
        line_len(t, y - 1) >= 1,
        line_start(t, y) >= 1,
{
    crate::text::lemma_line_start(t, y);
    crate::text::lemma_line_start(t, y - 1);
    crate::text::lemma_line_start_mono(t, y - 1, y);
    if line_start(t, y) == line_start(t, y - 1) {
        let s = line_start(t, y);
        assert(breaks_before(t, s) == y);
        assert(breaks_before(t, s) == y - 1);
    }
}

/// What a motion hands on to the rest of a command: the range it covers, the
/// char the cursor goes to, whether the preferred column and line follow,
/// whether the cursor moves at all, and whether the command is kept for `.`.
#[derive(Clone, Copy)]
pub struct Plan {
    pub start: usize,
    pub end: usize,
    pub target: usize,
    pub upd_x: bool,
    pub upd_y: bool,
    pub move_cursor: bool,
    pub save: bool,
}

/// A plan that moves the cursor and is not kept for `.`.
pub open spec fn plan(start: int, end: int, target: int, upd_x: bool, upd_y: bool) -> Plan {
    Plan {
        start: start as usize,
        end: end as usize,
        target: target as usize,
        upd_x,
        upd_y,
        move_cursor: true,
        save: false,
    }
}

/// `f` applied `n` times to `i`.
pub open spec fn iterate(f: spec_fn(int) -> int, i: int, n: nat) -> int
    decreases n,
{
    if n == 0 {
        i
    } else {
        f(iterate(f, i, (n - 1) as nat))
    }
}

/// `}` as a step from a char index.
pub open spec fn empty_below(t: Seq<char>) -> spec_fn(int) -> int {
    |k: int| next_empty_line(t, k)
}

/// `{` as a step from a char index.
pub open spec fn empty_above(t: Seq<char>) -> spec_fn(int) -> int {
    |k: int| prev_empty_line(t, k)
}

/// `w` (`big` false) or `W` as a step.
pub open spec fn word_step(t: Seq<char>, big: bool, action: bool) -> spec_fn(int) -> int {
    |k: int| if big { next_big_word(t, k, action) } else { next_word(t, k, action) }
}

/// `e` (`classes`) or `E` as a step.
pub open spec fn end_step(t: Seq<char>, classes: bool) -> spec_fn(int) -> int {
    |k: int| word_end(t, k, classes)
}

/// `b` (`classes`) or `B` as a step.
pub open spec fn back_step(t: Seq<char>, classes: bool) -> spec_fn(int) -> int {
    |k: int| back_word(t, k, classes)
}

/// Where `w` (or `W`) from `k` reads past the end of the text: an action
/// pending and the current run reaching the end.
pub open spec fn word_step_ok(t: Seq<char>, k: int, big: bool, action: bool) -> bool {
    !(action && k < t.len() && first_from(
        k,
        t.len() as int,
        if big {
            big_run_stop(t)
        } else {
            run_stop(t, is_word(t[k]))
        },
    ) >= t.len())
}

/// The first non-indent char of line `y` (the line's end when it has none).
pub open spec fn first_word(t: Seq<char>, y: int) -> int {
    first_from(line_start(t, y), line_start(t, y + 1), |k: int| !is_indent(t[k]))
}

/// The first `\n` at or after `i`, or the end of the text.
pub open spec fn line_end(t: Seq<char>, i: int) -> int {
    first_from(i, t.len() as int, |k: int| t[k] == '\n')
}

/// `count` lines up from the cursor `c`, at its preferred column.
pub open spec fn vertical_up(t: Seq<char>, c: CursorPos, n: int) -> Option<(CursorPos, Plan)> {
    let ci = line_start(t, c.y as int) + c.x;
    let e = column_on_line(t, sat_sub(c.y as int, n), c.preferred_x as int);
    Some((CursorPos { x: c.preferred_x, ..c }, plan(ci, e, e, false, true)))
}

/// `count` lines down from the cursor `c`, at its preferred column.
pub open spec fn vertical_down(t: Seq<char>, c: CursorPos, n: int) -> Option<(CursorPos, Plan)> {
    let ci = line_start(t, c.y as int) + c.x;
    let e = column_on_line(t, min_int(c.y + n, last_target_line(t)), c.preferred_x as int);
    Some((CursorPos { x: c.preferred_x, ..c }, plan(ci, e, e, false, true)))
}

/// What a motion that only moves over the text does, `n` times: the cursor
/// it leaves (some motions set its column first) and the plan for the rest
/// of the command; `None` where the motion stops the command.
pub open spec fn motion_plan(
    t: Seq<char>,
    c: CursorPos,
    query: Seq<char>,
    height: usize,
    m: Option<Motion>,
    action: Option<Action>,
    n: nat,
) -> Option<(CursorPos, Plan)> {
    let y = c.y as int;
    let ci = line_start(t, y) + c.x;
    let act = action is Some;
    match m {
        Some(Motion::FileStart) => Some((c, plan(0, ci, 0, true, true))),
        Some(Motion::Left) => if c.x == 0 {
            None
        } else {
            let start = line_start(t, y) + sat_sub(c.x as int, n as int);
            let adjust = if action == Some(Action::Delete) {
                n as int
            } else {
                0
            };
            Some(
                (
                    CursorPos { x: sat_sub(c.x as int, n as int) as usize, ..c },
                    plan(start, ci, sat_sub(start, adjust), true, false),
                ),
            )
        },
        Some(Motion::Right) => if line_len(t, y) == 1 {
            None
        } else {
            let e = line_start(t, y) + min_int(c.x + n, sat_sub(line_len(t, y), 1));
            Some((c, plan(ci, e, e, true, false)))
        },
        Some(Motion::Up) => match action {
            Some(Action::Change) => Some(
                (
                    c,
                    plan(line_start(t, sat_sub(y, n as int)), sat_sub(line_start(t, y + 1), 1), ci, false, false),
                ),
            ),
            Some(_) => Some((c, plan(line_start(t, sat_sub(y, n as int)), line_start(t, y + 1), ci, false, false))),
            None => vertical_up(t, c, n as int),
        },
        Some(Motion::Down) => match action {
            Some(Action::Change) => Some(
                (
                    c,
                    plan(
                        line_start(t, y),
                        line_start(t, y + n) + sat_sub(line_len(t, y + n), 1),
                        ci,
                        false,
                        false,
                    ),
                ),
            ),
            Some(_) => Some((c, plan(line_start(t, y), line_start(t, y + n + 1), ci, false, false))),
            None => vertical_down(t, c, n as int),
        },
        Some(Motion::HalfScreenUp) => vertical_up(t, c, (height / 2) as int),
        Some(Motion::HalfScreenDown) => vertical_down(t, c, (height / 2) as int),
        Some(Motion::NextEmptyLine) => {
            let e = iterate(empty_below(t), ci, n);
            Some((c, plan(ci, e, e, false, true)))
        },
        Some(Motion::PrevEmptyLine) => {
            let s = iterate(empty_above(t), ci, n);
            Some((c, plan(s, ci, s, false, true)))
        },
        Some(Motion::Word) => {
            let e = iterate(word_step(t, false, act), ci, n);
            Some((c, plan(ci, e, e, true, true)))
        },
        Some(Motion::UpperWord) => {
            let e = iterate(word_step(t, true, act), ci, n);
            Some((c, plan(ci, e, e, true, true)))
        },
        Some(Motion::End) => {
            let e = iterate(end_step(t, true), ci, n);
            Some((c, plan(ci, e + 1, e, true, true)))
        },
        Some(Motion::UpperEnd) => {
            let e = iterate(end_step(t, false), ci, n);
            Some((c, plan(ci, e, e, true, true)))
        },
        Some(Motion::Back) => {
            let s = iterate(back_step(t, true), ci, n);
            Some((c, plan(s, ci, s, true, true)))
        },
        Some(Motion::UpperBack) => {
            let s = iterate(back_step(t, false), ci, n);
            Some((c, plan(s, ci, s, true, true)))
        },
        Some(Motion::FirstWord) => {
            let f = first_word(t, y);
            Some((c, plan(min_int(ci, f), if ci >= f { ci } else { f }, f, true, false)))
        },
        Some(Motion::LineStart) => Some((c, plan(line_start(t, y), ci, line_start(t, y), true, false))),
        Some(Motion::LineEnd) => if line_len(t, y) == 1 {
            None
        } else {
            let e = line_end(t, ci);
            Some((CursorPos { preferred_x: usize::MAX, ..c }, plan(ci, e, e, false, false)))
        },
        Some(Motion::FileEnd) => {
            let e = sat_sub(t.len() as int, 2);
            Some((c, plan(ci, e, e, true, true)))
        },
        Some(Motion::DeleteLine) | Some(Motion::YankLine) => Some(
            (c, Plan { save: true, ..plan(line_start(t, y), line_start(t, y + n), ci, false, false) }),
        ),
        Some(Motion::ChangeLine) => Some(
            (c, Plan { save: true, ..plan(line_start(t, y), line_start(t, y + n) - 1, ci, false, false) }),
        ),
        Some(Motion::UpperChange) => Some(
            (c, Plan { move_cursor: false, ..plan(ci, line_end(t, ci), ci, false, false) }),
        ),
        Some(Motion::NextSearchResult) => match next_search_result(t, ci, query, None) {
            Some(i) => Some((c, plan(ci, ci, i, true, true))),
            None => None,
        },
        Some(Motion::PrevSearchResult) => match prev_search_result(t, ci, query) {
            Some(i) => Some((c, plan(ci, ci, i, true, true))),
            None => None,
        },
        _ => Some((c, plan(ci, ci, ci, false, false))),
    }
}

/// What a motion needs so as to be carried out: the reads and writes of the
/// text it makes lie within it, and its arithmetic fits in `usize`.
pub open spec fn motion_ok(
    t: Seq<char>,
    c: CursorPos,
    query: Seq<char>,
    height: usize,
    m: Option<Motion>,
    action: Option<Action>,
    n: nat,
) -> bool {
    let y = c.y as int;
    let ci = line_start(t, y) + c.x;
    let act = action is Some;
    &&& y < line_count(t)
    &&& ci <= t.len()
    &&& rope_fits(t)
    &&& n <= usize::MAX
    &&& match m {
        Some(Motion::Right) => c.x + n <= usize::MAX,
        Some(Motion::Down) => match action {
            Some(Action::Change) => y + n < line_count(t),
            Some(_) => y + n + 1 <= line_count(t),
            None => y + n <= usize::MAX,
        },
        Some(Motion::HalfScreenDown) => y + height / 2 <= usize::MAX,
        Some(Motion::Word) => forall|k: nat| k < n ==> word_step_ok(t, #[trigger] iterate(word_step(t, false, act), ci, k), false, act),
        Some(Motion::UpperWord) => forall|k: nat| k < n ==> word_step_ok(t, #[trigger] iterate(word_step(t, true, act), ci, k), true, act),
        Some(Motion::End) => forall|k: nat| k <= n ==> #[trigger] iterate(end_step(t, true), ci, k) < usize::MAX,
        Some(Motion::UpperEnd) => forall|k: nat| k < n ==> #[trigger] iterate(end_step(t, false), ci, k) < usize::MAX,
        Some(Motion::Back) => forall|k: nat| k < n ==> #[trigger] iterate(back_step(t, true), ci, k) <= t.len(),
        Some(Motion::UpperBack) => forall|k: nat| k < n ==> #[trigger] iterate(back_step(t, false), ci, k) <= t.len(),
        Some(Motion::DeleteLine) | Some(Motion::YankLine) => y + n <= line_count(t),
        Some(Motion::ChangeLine) => y + n <= line_count(t) && line_start(t, y + n) >= 1,
        Some(Motion::NextSearchResult) => ci < usize::MAX && ci + line_len(t, breaks_before(t, ci) as int) <= usize::MAX,
        Some(Motion::PrevSearchResult) => breaks_before(t, ci) > 0 || prev_search_result(t, ci, query) is Some,
        _ => true,
    }
}

fn mk_plan(start: usize, end: usize, target: usize, upd_x: bool, upd_y: bool) -> (p: Plan)
    ensures
        p == plan(start as int, end as int, target as int, upd_x, upd_y),
{
    Plan { start, end, target, upd_x, upd_y, move_cursor: true, save: false }
}

/// `}` or `{` `count` times from `from`.
fn repeat_empty(rope: &Rope, from: usize, count: usize, below: bool) -> (r: usize)
    requires
        from <= rope_text(*rope).len(),
        rope_fits(rope_text(*rope)),
    ensures
        below ==> r == iterate(empty_below(rope_text(*rope)), from as int, count as nat),
        !below ==> r == iterate(empty_above(rope_text(*rope)), from as int, count as nat),
{
    let ghost t = rope_text(*rope);
    let mut idx = from;
    let mut i: usize = 0;
    while i < count
        invariant
            t == rope_text(*rope),
            rope_fits(t),
            i <= count,
            idx <= t.len(),
            below ==> idx == iterate(empty_below(t), from as int, i as nat),
            !below ==> idx == iterate(empty_above(t), from as int, i as nat),
        decreases count - i,
    {
        if below {
            idx = next_empty_line_idx(idx, rope);
            proof {
                crate::text::lemma_line_start(t, (line_count(t) - 1) as int);
                let y = first_from(
                    breaks_before(t, iterate(empty_below(t), from as int, i as nat)) as int + 1,
                    line_count(t) as int,
                    |k: int| line_len(t, k) == 1,
                );
                if y >= 0 {
                    crate::text::lemma_line_start(t, y);
                }
            }
        } else {
            idx = prev_empty_line_idx(idx, rope);
            proof {
                let y = crate::scan::scan_down(
                    0,
                    sat_sub(breaks_before(t, iterate(empty_above(t), from as int, i as nat)) as int, 1),
                    |k: int| line_len(t, k) != 1,
                );
                if y >= 0 {
                    crate::text::lemma_line_start(t, y);
                }
            }
        }
        i += 1;
    }
    idx
}

/// `w` (or `W`) `count` times from `from`.
fn repeat_word(rope: &Rope, from: usize, count: usize, big: bool, action: bool) -> (r: usize)
    requires
        rope_fits(rope_text(*rope)),
        forall|k: nat|
            k < count ==> word_step_ok(
                rope_text(*rope),
                #[trigger] iterate(word_step(rope_text(*rope), big, action), from as int, k),
                big,
                action,
            ),
    ensures
        r == iterate(word_step(rope_text(*rope), big, action), from as int, count as nat),
{
    let ghost t = rope_text(*rope);
    let ghost f = word_step(t, big, action);
    let mut idx = from;
    let mut i: usize = 0;
    while i < count
        invariant
            t == rope_text(*rope),
            f == word_step(t, big, action),
            rope_fits(t),
            i <= count,
            idx == iterate(f, from as int, i as nat),
            forall|k: nat| k < count ==> word_step_ok(t, #[trigger] iterate(f, from as int, k), big, action),
        decreases count - i,
    {
        assert(word_step_ok(t, iterate(f, from as int, i as nat), big, action));
        if big {
            idx = upper_word_idx(idx, rope, action);
        } else {
            idx = next_word_idx(idx, rope, action);
        }
        i += 1;
    }
    idx
}

/// `e` (or `E`) `count` times from `from`.
fn repeat_end(rope: &Rope, from: usize, count: usize, classes: bool) -> (r: usize)
    requires
        rope_fits(rope_text(*rope)),
        forall|k: nat| k < count ==> #[trigger] iterate(end_step(rope_text(*rope), classes), from as int, k) < usize::MAX,
    ensures
        r == iterate(end_step(rope_text(*rope), classes), from as int, count as nat),
{
    let ghost t = rope_text(*rope);
    let ghost f = end_step(t, classes);
    let mut idx = from;
    let mut i: usize = 0;
    while i < count
        invariant
            t == rope_text(*rope),
            f == end_step(t, classes),
            rope_fits(t),
            i <= count,
            idx == iterate(f, from as int, i as nat),
            forall|k: nat| k < count ==> #[trigger] iterate(f, from as int, k) < usize::MAX,
        decreases count - i,
    {
        assert(iterate(f, from as int, i as nat) < usize::MAX);
        if classes {
            idx = word_end_idx(idx, rope);
        } else {
            idx = upper_word_end_idx(idx, rope);
        }
        i += 1;
    }
    idx
}

/// `b` (or `B`) `count` times from `from`.
fn repeat_back(rope: &Rope, from: usize, count: usize, classes: bool) -> (r: usize)
    requires
        forall|k: nat| k < count ==> #[trigger] iterate(back_step(rope_text(*rope), classes), from as int, k) <= rope_text(*rope).len(),
    ensures
        r == iterate(back_step(rope_text(*rope), classes), from as int, count as nat),
{
    let ghost t = rope_text(*rope);
    let ghost f = back_step(t, classes);
    let mut idx = from;
    let mut i: usize = 0;
    while i < count
        invariant
            t == rope_text(*rope),
            f == back_step(t, classes),
            i <= count,
            idx == iterate(f, from as int, i as nat),
            forall|k: nat| k < count ==> #[trigger] iterate(f, from as int, k) <= t.len(),
        decreases count - i,
    {
        assert(iterate(f, from as int, i as nat) <= t.len());
        if classes {
            idx = prev_word_idx(idx, rope);
        } else {
            idx = upper_back_word_idx(idx, rope);
        }
        i += 1;
    }
    idx
}

impl App {
    /// The plan of a motion that only moves over the text (see `motion_plan`).
    fn plan_motion(&self, motion: Option<Motion>, action: Option<Action>, count: usize) -> (r: Option<(CursorPos, Plan)>)
        requires
            motion_ok(rope_text(self.rope), self.cursor_pos, self.query@, self.main_height, motion, action, count as nat),
        ensures
            r == motion_plan(rope_text(self.rope), self.cursor_pos, self.query@, self.main_height, motion, action, count as nat),
    {
        let ghost t = rope_text(self.rope);
        let c = self.cursor_pos;
        let y = c.y;
        proof {
            lemma_line_bounds(t, y as int);
            crate::text::lemma_chars_le_bytes(t);
            crate::text::lemma_line_start(t, y as int);
        }
        let char_idx = self.get_char_idx();
        let act = action.is_some();
        match motion {
            Some(Motion::FileStart) => Some((c, mk_plan(0, char_idx, 0, true, true))),
            Some(Motion::Left) => {
                if c.x == 0 {
                    return None;
                }
                let cursor_adjust = if matches!(action, Some(Action::Delete)) {
                    count
                } else {
                    0
                };
                let start = cursor_left_idx(&c, count, &self.rope);
                let target = if start >= cursor_adjust {
                    start - cursor_adjust
                } else {
                    0
                };
                let x = if c.x >= count {
                    c.x - count
                } else {
                    0
                };
                Some((CursorPos { x, ..c }, mk_plan(start, char_idx, target, true, false)))
            },
            Some(Motion::Right) => {
                if is_empty_line(&rope_line(&self.rope, y)) {
                    return None;
                }
                let end = cursor_right_idx(&c, count, &self.rope);
                Some((c, mk_plan(char_idx, end, end, true, false)))
            },
            Some(Motion::Up) => {
                let up = if y >= count {
                    y - count
                } else {
                    0
                };
                proof {
                    crate::text::lemma_line_start_mono(t, up as int, y as int);
                    crate::text::lemma_line_start(t, y + 1);
                }
                match action {
                    Some(Action::Change) => {
                        let start = rope_line_to_char(&self.rope, up);
                        let next = rope_line_to_char(&self.rope, y + 1);
                        let end = if next >= 1 {
                            next - 1
                        } else {
                            0
                        };
                        Some((c, mk_plan(start, end, char_idx, false, false)))
                    },
                    Some(_) => {
                        let start = rope_line_to_char(&self.rope, up);
                        let end = rope_line_to_char(&self.rope, y + 1);
                        Some((c, mk_plan(start, end, char_idx, false, false)))
                    },
                    None => self.vertical(count, false),
                }
            },
            Some(Motion::Down) => match action {
                Some(Action::Change) => {
                    let end_y = y + count;
                    proof {
                        lemma_line_bounds(t, end_y as int);
                    }
                    let end_line_len = slice_len_chars(&rope_line(&self.rope, end_y));
                    let start = rope_line_to_char(&self.rope, y);
                    let end = rope_line_to_char(&self.rope, end_y) + if end_line_len >= 1 {
                        end_line_len - 1
                    } else {
                        0
                    };
                    Some((c, mk_plan(start, end, char_idx, false, false)))
                },
                Some(_) => {
                    proof {
                        lemma_line_bounds(t, (y + count) as int);
                    }
                    let start = rope_line_to_char(&self.rope, y);
                    let end = rope_line_to_char(&self.rope, y + count + 1);
                    Some((c, mk_plan(start, end, char_idx, false, false)))
                },
                None => self.vertical(count, true),
            },
            Some(Motion::HalfScreenUp) => self.vertical(self.main_height / 2, false),
            Some(Motion::HalfScreenDown) => self.vertical(self.main_height / 2, true),
            Some(Motion::NextEmptyLine) => {
                let end = repeat_empty(&self.rope, char_idx, count, true);
                Some((c, mk_plan(char_idx, end, end, false, true)))
            },
            Some(Motion::PrevEmptyLine) => {
                let start = repeat_empty(&self.rope, char_idx, count, false);
                Some((c, mk_plan(start, char_idx, start, false, true)))
            },
            Some(Motion::Word) => {
                // delete, change, and yank should stop at \n
                let end = repeat_word(&self.rope, char_idx, count, false, act);
                Some((c, mk_plan(char_idx, end, end, true, true)))
            },
            Some(Motion::UpperWord) => {
                let end = repeat_word(&self.rope, char_idx, count, true, act);
                Some((c, mk_plan(char_idx, end, end, true, true)))
            },
            Some(Motion::End) => {
                let range_end = repeat_end(&self.rope, char_idx, count, true);
                assert(iterate(end_step(t, true), char_idx as int, count as nat) < usize::MAX);
                Some((c, mk_plan(char_idx, range_end + 1, range_end, true, true)))
            },
            Some(Motion::UpperEnd) => {
                let end = repeat_end(&self.rope, char_idx, count, false);
                Some((c, mk_plan(char_idx, end, end, true, true)))
            },
            Some(Motion::Back) => {
                let start = repeat_back(&self.rope, char_idx, count, true);
                Some((c, mk_plan(start, char_idx, start, true, true)))
            },
            Some(Motion::UpperBack) => {
                let start = repeat_back(&self.rope, char_idx, count, false);
                Some((c, mk_plan(start, char_idx, start, true, true)))
            },
            Some(Motion::FirstWord) => {
                let target = first_word_idx(&c, &self.rope);
                let start = if char_idx <= target {
                    char_idx
                } else {
                    target
                };
                let end = if char_idx >= target {
                    char_idx
                } else {
                    target
                };
                Some((c, mk_plan(start, end, target, true, false)))
            },
            Some(Motion::LineStart) => {
                let start = line_start_idx(y, &self.rope);
                Some((c, mk_plan(start, char_idx, start, true, false)))
            },
            Some(Motion::LineEnd) => {
                if is_empty_line(&rope_line(&self.rope, y)) {
                    return None;
                }
                let target = line_end_idx(char_idx, &self.rope);
                Some((CursorPos { preferred_x: usize::MAX, ..c }, mk_plan(char_idx, target, target, false, false)))
            },
            Some(Motion::FileEnd) => {
                let end = file_end_idx(&self.rope);
                Some((c, mk_plan(char_idx, end, end, true, true)))
            },
            Some(Motion::DeleteLine) | Some(Motion::YankLine) => {
                proof {
                    crate::text::lemma_line_start(t, (y + count) as int);
                }
                let start = rope_line_to_char(&self.rope, y);
                let end = rope_line_to_char(&self.rope, y + count);
                Some((c, Plan { save: true, ..mk_plan(start, end, char_idx, false, false) }))
            },
            Some(Motion::ChangeLine) => {
                proof {
                    crate::text::lemma_line_start(t, (y + count) as int);
                }
                let start = rope_line_to_char(&self.rope, y);
                let end = rope_line_to_char(&self.rope, y + count) - 1;
                Some((c, Plan { save: true, ..mk_plan(start, end, char_idx, false, false) }))
            },
            Some(Motion::UpperChange) => {
                let end = line_end_idx(char_idx, &self.rope);
                Some((c, Plan { move_cursor: false, ..mk_plan(char_idx, end, char_idx, false, false) }))
            },
            Some(Motion::NextSearchResult) => {
                match next_search_result_idx(char_idx, self.query.as_str(), &self.rope, None) {
                    Some(idx) => Some((c, mk_plan(char_idx, char_idx, idx, true, true))),
                    None => None,
                }
            },
            Some(Motion::PrevSearchResult) => {
                match prev_search_result_idx(char_idx, self.query.as_str(), &self.rope) {
                    Some(idx) => Some((c, mk_plan(char_idx, char_idx, idx, true, true))),
                    None => None,
                }
            },
            _ => Some((c, mk_plan(char_idx, char_idx, char_idx, false, false))),
        }
    }

    /// `count` lines up or down at the preferred column.
    fn vertical(&self, count: usize, down: bool) -> (r: Option<(CursorPos, Plan)>)
        requires
            self.cursor_fits(),
            rope_fits(rope_text(self.rope)),
            down ==> self.cursor_pos.y + count <= usize::MAX,
        ensures
            down ==> r == vertical_down(rope_text(self.rope), self.cursor_pos, count as int),
            !down ==> r == vertical_up(rope_text(self.rope), self.cursor_pos, count as int),
    {
        let char_idx = self.get_char_idx();
        let c = CursorPos { x: self.cursor_pos.preferred_x, ..self.cursor_pos };
        let end = if down {
            cursor_down_idx(&c, count, &self.rope)
        } else {
            cursor_up_idx(&c, count, &self.rope)
        };
        Some((c, mk_plan(char_idx, end, end, false, true)))
    }
}

/// The key of the unnamed register, `"`.
pub const UNNAMED: u32 = 34;

/// A plan that keeps the cursor where the motion put it and is kept for `.`.
pub open spec fn saving(ci: int) -> Plan {
    Plan {
        start: ci as usize,
        end: ci as usize,
        target: ci as usize,
        upd_x: false,
        upd_y: false,
        move_cursor: false,
        save: true,
    }
}

/// The first selection's range, inclusive: from its smaller end to its larger.
pub open spec fn sel_lo(s: VisualSelection) -> int {
    min_int(s.ancor as int, s.cursor as int)
}

pub open spec fn sel_hi(s: VisualSelection) -> int {
    if s.ancor >= s.cursor {
        s.ancor as int
    } else {
        s.cursor as int
    }
}

/// The unnamed register, if it holds something.
pub open spec fn unnamed(a: AppView) -> Option<YankView> {
    if a.yank.contains_key(UNNAMED) {
        Some(a.yank[UNNAMED])
    } else {
        None
    }
}

/// A block pasted line by line from line `y` on at column `x` (one char
/// further on where that char is not a `\n` when `after`).
pub open spec fn pasted_block(t: Seq<char>, y: int, x: int, strs: Seq<Seq<char>>, after: bool) -> Seq<char>
    decreases strs.len(),
{
    if strs.len() == 0 {
        t
    } else {
        let at = line_start(t, y) + x;
        let i = if after && t[at] != '\n' {
            at + 1
        } else {
            at
        };
        pasted_block(inserted(t, i, strs[0]), y + 1, x, strs.drop_first(), after)
    }
}

/// What pasting a block reads and writes lies within the text.
pub open spec fn block_paste_ok(t: Seq<char>, y: int, x: int, strs: Seq<Seq<char>>, after: bool) -> bool
    decreases strs.len(),
{
    if strs.len() == 0 {
        true
    } else {
        let at = line_start(t, y) + x;
        let i = if after && t[at] != '\n' {
            at + 1
        } else {
            at
        };
        &&& y <= line_count(t)
        &&& at + 1 <= usize::MAX
        &&& (if after {
            at < t.len()
        } else {
            at <= t.len()
        })
        &&& i <= t.len()
        &&& y + 1 <= usize::MAX
        &&& block_paste_ok(inserted(t, i, strs[0]), y + 1, x, strs.drop_first(), after)
    }
}

/// Where the cursor is sent after pasting a block: after the last string's
/// bytes, counted from the cursor's char.
pub open spec fn block_target(ci: int, strs: Seq<Seq<char>>) -> int {
    if strs.len() == 0 {
        ci
    } else {
        ci + str_len(strs.last())
    }
}

/// The cursor's char index plus the length in bytes of each string fits in
/// `usize`.
pub open spec fn block_fits(ci: int, strs: Seq<Seq<char>>) -> bool {
    forall|i: int| 0 <= i < strs.len() ==> ci + str_len(#[trigger] strs[i]) <= usize::MAX
}

/// `p`: after the cursor (or over a visual selection), a char string, whole
/// lines below the cursor's line, or a block.
pub open spec fn paste_after(a: AppView, visual: bool) -> (AppView, Option<Plan>) {
    let t = a.text;
    let ci = cursor_idx(a);
    let y = a.cursor.y as int;
    let over = visual && a.selections.len() > 0;
    let lo = sel_lo(a.selections[0]);
    let hi = sel_hi(a.selections[0]);
    match unnamed(a) {
        None => (a, Some(saving(ci))),
        Some(YankView::Chars(content)) => {
            let t1 = if over {
                removed(t, lo, hi + 1)
            } else {
                t
            };
            let idx = if over {
                lo
            } else if t[ci] != '\n' {
                ci + 1
            } else {
                ci
            };
            let kept = if over {
                t.subrange(lo, hi + 1)
            } else {
                Seq::empty()
            };
            let b = AppView {
                text: inserted(t1, idx, content),
                selections: Seq::empty(),
                yank: a.yank.insert(UNNAMED, YankView::Chars(kept)),
                ..a
            };
            (back_to_normal(cursor_put(b, sat_sub(idx + str_len(content), 1))), None)
        },
        Some(YankView::Lines(content)) => {
            let t1 = if over {
                removed(t, lo, hi + 1)
            } else {
                t
            };
            let idx = if over {
                lo
            } else {
                line_start(t, y + 1)
            };
            let b = AppView { text: inserted(t1, idx, content), selections: Seq::empty(), ..a };
            (back_to_normal(cursor_put(b, sat_sub(idx + str_len(content), 1))), None)
        },
        Some(YankView::Block(strs)) => (
            AppView { text: pasted_block(t, y, a.cursor.x as int, strs, true), ..a },
            Some(Plan { target: block_target(ci, strs) as usize, ..saving(ci) }),
        ),
    }
}

/// What `p` needs: the chars it reads and the places it writes lie within
/// the text, its arithmetic fits, and the view can scroll.
pub open spec fn paste_after_ok(a: AppView, visual: bool) -> bool {
    let t = a.text;
    let ci = cursor_idx(a);
    let y = a.cursor.y as int;
    let over = visual && a.selections.len() > 0;
    let lo = sel_lo(a.selections[0]);
    let hi = sel_hi(a.selections[0]);
    match unnamed(a) {
        None => true,
        Some(YankView::Chars(content)) => {
            let idx = if over { lo } else if t[ci] != '\n' { ci + 1 } else { ci };
            &&& ci < t.len()
            &&& (over ==> hi + 1 <= t.len())
            &&& idx + str_len(content) <= usize::MAX
            &&& idx <= (if over { t.len() - (hi + 1 - lo) } else { t.len() as int })
        },
        Some(YankView::Lines(content)) => {
            let idx = if over { lo } else { line_start(t, y + 1) };
            &&& y + 1 <= line_count(t)
            &&& (over ==> hi + 1 <= t.len())
            &&& idx + str_len(content) <= usize::MAX
            &&& idx <= (if over { t.len() - (hi + 1 - lo) } else { t.len() as int })
        },
        Some(YankView::Block(strs)) => {
            &&& block_paste_ok(t, y, a.cursor.x as int, strs, true)
            &&& block_fits(ci, strs)
        },
    }
}

/// `P`: before the cursor a char string, whole lines above the cursor's
/// line, or a block at the cursor.
pub open spec fn paste_before(a: AppView) -> (AppView, Option<Plan>) {
    let t = a.text;
    let ci = cursor_idx(a);
    let y = a.cursor.y as int;
    match unnamed(a) {
        None => (a, Some(saving(ci))),
        Some(YankView::Chars(content)) => (
            AppView { text: inserted(t, ci, content), ..a },
            Some(Plan { target: (ci + str_len(content) - 1) as usize, ..saving(ci) }),
        ),
        Some(YankView::Lines(content)) => (
            AppView { text: inserted(t, line_start(t, y), content), ..a },
            Some(Plan { target: line_start(t, y) as usize, ..saving(ci) }),
        ),
        Some(YankView::Block(strs)) => (
            AppView { text: pasted_block(t, y, a.cursor.x as int, strs, false), ..a },
            Some(Plan { target: block_target(ci, strs) as usize, ..saving(ci) }),
        ),
    }
}

/// What `P` needs.
pub open spec fn paste_before_ok(a: AppView) -> bool {
    let ci = cursor_idx(a);
    match unnamed(a) {
        None => true,
        Some(YankView::Chars(content)) => ci + str_len(content) >= 1 && ci + str_len(content) <= usize::MAX,
        Some(YankView::Lines(content)) => true,
        Some(YankView::Block(strs)) => {
            &&& block_paste_ok(a.text, a.cursor.y as int, a.cursor.x as int, strs, false)
            &&& block_fits(ci, strs)
        },
    }
}

/// `o`: a new line below the cursor's line, indented as that line (one more
/// level after an opening bracket), in insert mode.
pub open spec fn open_below(a: AppView) -> AppView {
    let t = a.text;
    let y = a.cursor.y as int;
    let b = mode_changed(a, Mode::Insert);
    let lci = line_end(t, cursor_idx(a));
    let ws = leading_blanks(line_text(t, y));
    if is_opening_bracket(t[sat_sub(lci, 1)]) {
        let b2 = AppView {
            text: inserted(t, lci, seq!['\n'] + ws + tab_text()),
            last_insertion: (b.last_insertion.0, b.last_insertion.1.push('\n')),
            ..b
        };
        cursor_put(b2, lci + str_len(ws) + 5)
    } else {
        let nl = new_line_below(t, y);
        AppView {
            text: inserted(t, nl.0, seq!['\n'] + nl.1),
            cursor: CursorPos { y: (y + 1) as usize, x: nl.1.len() as usize, ..a.cursor },
            ..b
        }
    }
}

/// `O`: a new line above the cursor's line, indented as that line, in
/// insert mode.
pub open spec fn open_above(a: AppView) -> AppView {
    let t = a.text;
    let y = a.cursor.y as int;
    let ws = leading_blanks(line_text(t, y));
    let b = AppView {
        text: inserted(t, line_start(t, y), ws.push('\n')),
        cursor: CursorPos { x: ws.len() as usize, ..a.cursor },
        ..a
    };
    mode_changed(b, Mode::Insert)
}

/// What the motion of a command does before the rest of the command: the
/// editor it leaves and the plan for the rest, if the command goes on.
pub open spec fn step_effect(a: AppView, cmd: CommandView, n: nat, visual: bool) -> (AppView, Option<Plan>) {
    let t = a.text;
    let c = a.cursor;
    let y = c.y as int;
    let ci = cursor_idx(a);
    match cmd.motion {
        Some(Motion::EnterSearchMode) => (
            mode_changed(AppView { cursor: CursorPos { preferred_y: c.y, preferred_x: c.x, ..c }, ..a }, Mode::Search),
            None,
        ),
        Some(Motion::EnterCommandMode) => (
            mode_changed(AppView { cursor: CursorPos { preferred_y: c.y, preferred_x: c.x, ..c }, ..a }, Mode::Command),
            None,
        ),
        Some(Motion::VisualMode) => (
            mode_changed(
                AppView { selections: seq![VisualSelection { ancor: ci as usize, cursor: ci as usize }], ..a },
                Mode::Visual,
            ),
            None,
        ),
        Some(Motion::InsertMode) => (mode_changed(a, Mode::Insert), Some(saving(ci))),
        Some(Motion::UpperInsert) => {
            let f = first_word(t, y);
            (mode_changed(cursor_put(a, f), Mode::Insert), Some(Plan { target: f as usize, ..saving(ci) }))
        },
        Some(Motion::Append) => (
            mode_changed(AppView { cursor: CursorPos { x: (c.x + 1) as usize, ..c }, ..a }, Mode::Insert),
            Some(saving(ci)),
        ),
        Some(Motion::UpperAppend) => {
            let b = if line_len(t, y) == 1 {
                mode_changed(a, Mode::Insert)
            } else {
                a
            };
            let e = line_end(t, ci);
            (mode_changed(cursor_put(b, e), Mode::Insert), Some(Plan { target: e as usize, ..saving(ci) }))
        },
        Some(Motion::NewLineBelow) => (open_below(a), Some(saving(ci))),
        Some(Motion::NewLineAbove) => (open_above(a), Some(saving(ci))),
        Some(Motion::UpperChange) if line_len(t, y) == 1 => (mode_changed(a, Mode::Insert), None),
        Some(Motion::Paste) => paste_after(a, visual),
        Some(Motion::UpperPaste) => paste_before(a),
        _ => match motion_plan(t, c, a.query, a.main_height, cmd.motion, cmd.action, n) {
            Some(r) => (AppView { cursor: r.0, ..a }, Some(r.1)),
            None => (a, None),
        },
    }
}

/// What the motion of a command needs.
pub open spec fn step_ok(a: AppView, cmd: CommandView, n: nat, visual: bool) -> bool {
    let t = a.text;
    let c = a.cursor;
    let y = c.y as int;
    let ci = cursor_idx(a);
    &&& y < line_count(t)
    &&& ci <= t.len()
    &&& ci <= usize::MAX
    &&& rope_fits(t)
    &&& a.main_height >= SCROLL_OFFSET + 1
    &&& a.top_line + SCROLL_OFFSET <= usize::MAX
    &&& match cmd.motion {
        Some(Motion::UpperInsert) | Some(Motion::UpperAppend) => true,
        Some(Motion::Append) => c.x + 1 <= usize::MAX,
        Some(Motion::NewLineBelow) => {
            let lci = line_end(t, ci);
            let ws = leading_blanks(line_text(t, y));
            &&& sat_sub(lci, 1) < t.len()
            &&& lci + str_len(ws) + 5 <= usize::MAX
            &&& y + 1 <= usize::MAX
        },
        Some(Motion::NewLineAbove) => true,
        Some(Motion::Paste) => paste_after_ok(a, visual),
        Some(Motion::UpperPaste) => paste_before_ok(a),
        Some(Motion::EnterSearchMode) | Some(Motion::EnterCommandMode) | Some(Motion::VisualMode)
        | Some(Motion::InsertMode) => true,
        Some(Motion::UpperChange) if line_len(t, y) == 1 => true,
        _ => motion_ok(t, c, a.query, a.main_height, cmd.motion, cmd.action, n),
    }
}

/// The selections once a command has moved: in visual-line mode the first
/// covers whole lines from the anchor's line to the target's, in visual mode
/// its cursor end goes to the target, in visual-block mode there are none,
/// and otherwise one selection covers the motion's range.
pub open spec fn selections_after(a: AppView, p: Plan) -> AppView {
    let t = a.text;
    match a.mode {
        Mode::VisualLine(y) => if a.selections.len() > 0 {
            let sel = a.selections[0];
            let ns = if p.target >= sel.ancor {
                VisualSelection {
                    ancor: line_start(t, y as int) as usize,
                    cursor: line_end(t, p.target as int) as usize,
                }
            } else {
                VisualSelection {
                    ancor: line_end(t, line_start(t, y as int)) as usize,
                    cursor: line_start(t, breaks_before(t, p.target as int) as int) as usize,
                }
            };
            AppView { selections: a.selections.update(0, ns), ..a }
        } else {
            a
        },
        Mode::Visual => if a.selections.len() > 0 {
            AppView {
                selections: a.selections.update(0, VisualSelection { cursor: p.target, ..a.selections[0] }),
                ..a
            }
        } else {
            a
        },
        Mode::VisualBlock => AppView { selections: Seq::empty(), ..a },
        _ => AppView {
            selections: seq![VisualSelection { ancor: p.start, cursor: sat_sub(p.end as int, 1) as usize }],
            ..a
        },
    }
}

/// The range a command acts on: the visual selection (its last char
/// included when there is an action) or the motion's range.
pub open spec fn command_range(a: AppView, cmd: CommandView, p: Plan, visual: bool) -> (int, int) {
    if visual && a.selections.len() > 0 {
        let s = a.selections[0];
        (sel_lo(s), sel_hi(s) + if cmd.action is Some {
            1int
        } else {
            0int
        })
    } else {
        (p.start as int, p.end as int)
    }
}

/// The pieces of lines `y0..y` between columns `x0` and `x1` (both
/// included), for the lines long enough.
pub open spec fn block_upto(t: Seq<char>, x0: int, x1: int, y0: int, y: int) -> Seq<Seq<char>>
    decreases y - y0,
{
    if y <= y0 {
        Seq::empty()
    } else {
        let rest = block_upto(t, x0, x1, y0, y - 1);
        let s = line_start(t, y - 1) + x0;
        let e = line_start(t, y - 1) + x1 + 1;
        if e <= t.len() {
            rest.push(t.subrange(s, e))
        } else {
            rest
        }
    }
}

/// The corners of a visual block, each pair ordered.
pub open spec fn block_lo(r: [usize; 2]) -> int {
    min_int(r@[0] as int, r@[1] as int)
}

pub open spec fn block_hi(r: [usize; 2]) -> int {
    if r@[0] >= r@[1] {
        r@[0] as int
    } else {
        r@[1] as int
    }
}

/// The unnamed register after an action: the block in visual-block mode,
/// else the range's text, as lines when it holds a `\n`.
pub open spec fn yanked(a: AppView, cmd: CommandView, r: (int, int)) -> AppView {
    if cmd.action is Some {
        if a.mode == Mode::VisualBlock {
            match a.block {
                Some(b) => AppView {
                    yank: a.yank.insert(
                        UNNAMED,
                        YankView::Block(
                            block_upto(
                                a.text,
                                block_lo(b.x_rng),
                                block_hi(b.x_rng),
                                block_lo(b.y_rng),
                                block_hi(b.y_rng) + 1,
                            ),
                        ),
                    ),
                    ..a
                },
                None => a,
            }
        } else if 0 <= r.0 <= r.1 <= a.text.len() {
            let s = a.text.subrange(r.0, r.1);
            AppView {
                yank: a.yank.insert(
                    UNNAMED,
                    if s.contains('\n') {
                        YankView::Lines(s)
                    } else {
                        YankView::Chars(s)
                    },
                ),
                ..a
            }
        } else {
            a
        }
    } else {
        a
    }
}

/// The action on the range: a yank flashes it (outside visual mode) and goes
/// back to normal mode; a delete or change removes it (onto the undo stack)
/// and goes to normal or insert mode.
pub open spec fn acted(a: AppView, cmd: CommandView, r: (int, int), visual: bool) -> AppView {
    let c = a.cursor;
    match cmd.action {
        Some(Action::Yank) => mode_changed(
            AppView {
                highlight_yank: if !visual {
                    true
                } else {
                    a.highlight_yank
                },
                cursor: CursorPos { preferred_x: c.x, preferred_y: c.y, ..c },
                ..a
            },
            Mode::Normal,
        ),
        Some(act) => {
            let b = AppView {
                undo: a.undo.push(ActionView::Delete { idx: r.0 as usize, content: a.text.subrange(r.0, r.1) }),
                text: removed(a.text, r.0, r.1),
                cursor: CursorPos { preferred_x: c.x, ..c },
                ..a
            };
            mode_changed(
                b,
                if act == Action::Change {
                    Mode::Insert
                } else {
                    Mode::Normal
                },
            )
        },
        None => a,
    }
}

/// Whether the cursor moves to the target once the action is done.
pub open spec fn moves_after(cmd: CommandView, p: Plan) -> bool {
    match cmd.action {
        Some(Action::Yank) => false,
        _ => p.move_cursor,
    }
}

/// Where the cursor goes: the start of a deleted or changed range, else the
/// motion's target.
pub open spec fn target_after(cmd: CommandView, p: Plan, r: (int, int)) -> int {
    match cmd.action {
        Some(Action::Delete) | Some(Action::Change) => r.0,
        _ => p.target as int,
    }
}

/// Entering insert mode starts a new insertion at the cursor (with the line
/// break of `o` and `O` already in it), but not when repeating.
pub open spec fn recorded(a: AppView, cmd: CommandView, repeat: bool) -> AppView {
    if a.mode == Mode::Insert && !repeat {
        AppView {
            last_insertion: (
                cursor_idx(a) as usize,
                if cmd.motion == Some(Motion::NewLineBelow) || cmd.motion == Some(Motion::NewLineAbove) {
                    seq!['\n']
                } else {
                    Seq::empty()
                },
            ),
            ..a
        }
    } else {
        a
    }
}

/// The command kept for `.`.
pub open spec fn saved(a: AppView, cmd: CommandView, save: bool) -> AppView {
    if save {
        AppView { last_command: cmd, ..a }
    } else {
        a
    }
}

/// The cursor sent to `target` and kept off the line break.
pub open spec fn moved(a: AppView, mv: bool, target: int) -> AppView {
    if mv {
        kept_off_break(cursor_put(a, target))
    } else {
        a
    }
}

/// The preferred column and line following the cursor as the plan says.
pub open spec fn preferred(a: AppView, p: Plan) -> AppView {
    let c = a.cursor;
    AppView {
        cursor: CursorPos {
            preferred_x: if p.upd_x {
                c.x
            } else {
                c.preferred_x
            },
            preferred_y: if p.upd_y {
                c.y
            } else {
                c.preferred_y
            },
            ..c
        },
        ..a
    }
}

/// The bracket that matches the one under the cursor, if any.
pub open spec fn bracketed(a: AppView) -> AppView {
    AppView {
        bracket: match matching_bracket(a.text, cursor_idx(a)) {
            Some(i) => Some(i as usize),
            None => None,
        },
        ..a
    }
}

/// The rest of a command once its motion has given the plan `p`.
pub open spec fn finished(a: AppView, cmd: CommandView, p: Plan, visual: bool, repeat: bool) -> AppView {
    let a1 = selections_after(a, p);
    let r = command_range(a1, cmd, p, visual);
    let a2 = yanked(a1, cmd, r);
    let a3 = acted(a2, cmd, r, visual);
    finished_from(a3, cmd, p, visual, repeat, r)
}

/// The last steps of a command, once its action is done on the range `r`:
/// the insertion, the command kept for `.`, the cursor, the matching bracket
/// and the view.
pub open spec fn finished_from(a3: AppView, cmd: CommandView, p: Plan, visual: bool, repeat: bool, r: (int, int)) -> AppView {
    let a4 = recorded(a3, cmd, repeat);
    let a5 = saved(a4, cmd, p.save && !visual);
    let a6 = moved(a5, moves_after(cmd, p), target_after(cmd, p, r));
    let a7 = preferred(a6, p);
    let a8 = bracketed(a7);
    scrolled(a8, a8.cursor.y as int)
}

/// What the rest of a command needs.
pub open spec fn finish_ok(a: AppView, cmd: CommandView, p: Plan, visual: bool, repeat: bool) -> bool {
    let a1 = selections_after(a, p);
    let r = command_range(a1, cmd, p, visual);
    let a3 = acted(yanked(a1, cmd, r), cmd, r, visual);
    &&& action_ok(a, cmd, p, visual)
    &&& tail_ok(a3, cmd, p, visual, repeat, r)
}

/// What the selection, register and action steps need: the lines and chars
/// they read lie within the text and their arithmetic fits.
pub open spec fn action_ok(a: AppView, cmd: CommandView, p: Plan, visual: bool) -> bool {
    let t = a.text;
    let a1 = selections_after(a, p);
    let r = command_range(a1, cmd, p, visual);
    &&& rope_fits(t)
    &&& (a.mode matches Mode::VisualLine(y) ==> (a.selections.len() > 0 ==> y <= line_count(t) && p.target <= t.len()))
    &&& (visual && a1.selections.len() > 0 ==> sel_hi(a1.selections[0]) + 1 <= usize::MAX)
    &&& (cmd.action is Some && a1.mode == Mode::VisualBlock && a1.block is Some ==> {
        let b = a1.block->Some_0;
        &&& block_hi(b.y_rng) < line_count(t)
        &&& forall|y: int| block_lo(b.y_rng) <= y <= block_hi(b.y_rng) ==> #[trigger] line_start(t, y) + block_hi(b.x_rng) + 1 <= usize::MAX
    })
    &&& (cmd.action is Some && cmd.action != Some(Action::Yank) ==> 0 <= r.0 <= r.1 <= t.len())
}

/// What the last steps of a command need, once the action is done on `r`:
/// the cursor's char lies within the text and the view can scroll.
pub open spec fn tail_ok(a3: AppView, cmd: CommandView, p: Plan, visual: bool, repeat: bool, r: (int, int)) -> bool {
    let a4 = recorded(a3, cmd, repeat);
    let a5 = saved(a4, cmd, p.save && !visual);
    let a6 = moved(a5, moves_after(cmd, p), target_after(cmd, p, r));
    let a7 = preferred(a6, p);
    &&& (a3.mode == Mode::Insert && !repeat ==> a3.cursor.y <= line_count(a3.text) && cursor_idx(a3) <= usize::MAX)
    &&& a7.cursor.y <= line_count(a7.text)
    &&& cursor_idx(a7) < a7.text.len()
    &&& rope_fits(a7.text)
    &&& a3.main_height >= SCROLL_OFFSET + 1
    &&& a3.top_line + SCROLL_OFFSET <= usize::MAX
}

/// The count of a command: its digits as a number, 1 when it has none (or
/// they do not make a `usize`).
pub open spec fn count_of(s: Seq<char>) -> nat {
    match parsed_usize(s) {
        Some(n) => n,
        None => 1,
    }
}

/// What a command does (`repeat` when it is run again by `.`): the motion,
/// then the rest; `.` runs the last kept command again, types the last
/// insertion again if that left insert mode, and goes back to normal mode.
pub open spec fn command_effect(a: AppView, cmd: CommandView, visual: bool, repeat: bool) -> AppView
    decreases (if repeat {
        0int
    } else {
        1int
    }),
{
    let a0 = parser_reset(a);
    if cmd.motion == Some(Motion::Repeat) {
        if repeat {
            a0
        } else {
            let a1 = command_effect(a0, a0.last_command, visual, true);
            let li = a1.last_insertion.1;
            let a2 = if a1.mode == Mode::Insert {
                let idx = cursor_idx(a1);
                let b = AppView { text: inserted(a1.text, idx, li), ..a1 };
                kept_off_break(cursor_put(b, idx + str_len(li) - 1))
            } else {
                a1
            };
            mode_changed(a2, Mode::Normal)
        }
    } else {
        let s = step_effect(a0, cmd, count_of(cmd.count), visual);
        match s.1 {
            Some(p) => finished(s.0, cmd, p, visual, repeat),
            None => s.0,
        }
    }
}

/// What a command needs so as to be carried out.
pub open spec fn command_ok(a: AppView, cmd: CommandView, visual: bool, repeat: bool) -> bool
    decreases (if repeat {
        0int
    } else {
        1int
    }),
{
    let a0 = parser_reset(a);
    if cmd.motion == Some(Motion::Repeat) {
        &&& !repeat
        &&& a0.last_command.motion != Some(Motion::Repeat)
        &&& command_ok(a0, a0.last_command, visual, true)
        &&& {
            let a1 = command_effect(a0, a0.last_command, visual, true);
            let li = a1.last_insertion.1;
            a1.mode == Mode::Insert ==> {
                &&& a1.cursor.y <= line_count(a1.text)
                &&& cursor_idx(a1) <= a1.text.len()
                &&& cursor_idx(a1) + str_len(li) <= usize::MAX
                &&& cursor_idx(a1) + str_len(li) >= 1
            }
        }
    } else {
        let n = count_of(cmd.count);
        let s = step_effect(a0, cmd, n, visual);
        &&& step_ok(a0, cmd, n, visual)
        &&& (s.1 matches Some(p) ==> finish_ok(s.0, cmd, p, visual, repeat))
    }
}

/// The value of a string of decimal digits.
pub open spec fn digits_value(s: Seq<char>) -> nat
    decreases s.len(),
{
    if s.len() == 0 {
        0
    } else {
        digits_value(s.drop_last()) * 10 + (s.last() as nat - 48) as nat
    }
}

/// What `str::parse::<usize>` gives for `s`: an optional `+` and then one or
/// more decimal digits whose value fits in `usize`.
pub open spec fn parsed_usize(s: Seq<char>) -> Option<nat> {
    let d = unsigned_part(s);
    if d.len() > 0 && all_digits(d) && digits_value(d) <= usize::MAX {
        Some(digits_value(d))
    } else {
        None
    }
}

/// A number's text without its leading `+`, if it has one.
pub open spec fn unsigned_part(s: Seq<char>) -> Seq<char> {
    if s.len() > 0 && s[0] == '+' {
        s.drop_first()
    } else {
        s
    }
}

/// Whether every char of `d` is a decimal digit.
pub open spec fn all_digits(d: Seq<char>) -> bool {
    forall|i: int| 0 <= i < d.len() ==> '0' <= #[trigger] d[i] <= '9'
}

proof fn lemma_digits_mono(s: Seq<char>, m: int)
    requires
        0 <= m <= s.len(),
        all_digits(s),
    ensures
        digits_value(s.take(m)) <= digits_value(s),
    decreases s.len(),
{
    if m < s.len() {
        assert(s.drop_last().take(m) =~= s.take(m));
        lemma_digits_mono(s.drop_last(), m);
    } else {
        assert(s.take(m) =~= s);
    }
}

/// The count of a command, as `str::parse::<usize>` reads it.
fn parse_count(s: &str) -> (r: Option<usize>)
    ensures
        match r {
            Some(n) => parsed_usize(s@) == Some(n as nat),
            None => parsed_usize(s@) is None,
        },
{
    let ghost t = s@;
    let ghost off: int = if t.len() > 0 && t[0] == '+' {
        1
    } else {
        0
    };
    let ghost d = unsigned_part(t);
    let mut value: usize = 0;
    let ghost mut digits: int = 0;
    let mut seen_digit = false;
    let mut first = true;
    for c in it: s.chars()
        invariant
            t == s@,
            it.seq() == t,
            first <==> it.index() == 0,
            off == (if t.len() > 0 && t[0] == '+' { 1int } else { 0int }),
            d == unsigned_part(t),
            d.len() == t.len() - off,
            it.index() >= off ==> digits == it.index() - off,
            it.index() < off ==> digits == 0 && it.index() == 0,
            0 <= digits <= d.len(),
            seen_digit <==> digits > 0,
            forall|i: int| 0 <= i < digits ==> '0' <= #[trigger] d[i] <= '9',
            value == digits_value(d.take(digits)),
    {
        let is_plus = first && c == '+';
        first = false;
        if is_plus {
            assert(off == 1);
        } else {
            assert(d[digits] == c);
            if !('0' <= c && c <= '9') {
                assert(!('0' <= d[digits] <= '9'));
                assert(!all_digits(d));
                return None;
            }
            let dv = (c as u32 - '0' as u32) as usize;
            assert(d.take(digits + 1).drop_last() =~= d.take(digits));
            assert(d.take(digits + 1).last() == c);
            assert(digits_value(d.take(digits + 1)) == value * 10 + dv);
            match value.checked_mul(10) {
                Some(v10) => match v10.checked_add(dv) {
                    Some(v) => {
                        value = v;
                    },
                    None => {
                        proof {
                            if all_digits(d) {
                                lemma_digits_mono(d, digits + 1);
                            }
                        }
                        return None;
                    },
                },
                None => {
                    proof {
                        if forall|i: int| 0 <= i < d.len() ==> '0' <= #[trigger] d[i] <= '9' {
                            lemma_digits_mono(d, digits + 1);
                        }
                    }
                    return None;
                },
            }
            proof {
                digits = digits + 1;
            }
            seen_digit = true;
        }
    }
    assert(d.take(digits) =~= d);
    if !seen_digit {
        return None;
    }
    Some(value)
}

impl App {
    /// The motions that change mode without moving over the text first.
    fn mode_step(&mut self, motion: Motion, char_idx: usize) -> (r: Option<Plan>)
        requires
            char_idx == cursor_idx(old(self)@),
            old(self).cursor_fits(),
            rope_fits(rope_text(old(self).rope)),
            motion == Motion::Append ==> old(self).cursor_pos.x + 1 <= usize::MAX,
            motion == Motion::EnterSearchMode || motion == Motion::EnterCommandMode || motion
                == Motion::VisualMode || motion == Motion::InsertMode || motion == Motion::UpperInsert
                || motion == Motion::Append || motion == Motion::UpperAppend || (motion
                == Motion::UpperChange && line_len(rope_text(old(self).rope), old(self).cursor_pos.y as int)
                == 1),
        ensures
            (final(self)@, r) == step_effect(
                old(self)@,
                CommandView { motion: Some(motion), action: None, count: Seq::empty() },
                0,
                false,
            ),
    {
        let ghost a = self@;
        let ghost t = rope_text(self.rope);
        let y = self.cursor_pos.y;
        proof {
            lemma_line_bounds(t, y as int);
        }
        match motion {
            Motion::EnterSearchMode | Motion::EnterCommandMode => {
                self.cursor_pos.preferred_y = self.cursor_pos.y;
                self.cursor_pos.preferred_x = self.cursor_pos.x;
                self.change_mode(
                    if motion == Motion::EnterSearchMode {
                        Mode::Search
                    } else {
                        Mode::Command
                    },
                );
                None
            },
            Motion::VisualMode => {
                let new_selection = VisualSelection { ancor: char_idx, cursor: char_idx };
                self.selections.clear();
                self.selections.push(new_selection);
                assert(self.selections@ =~= seq![new_selection]);
                self.change_mode(Mode::Visual);
                None
            },
            Motion::InsertMode => {
                self.change_mode(Mode::Insert);
                Some(Plan { start: char_idx, end: char_idx, target: char_idx, upd_x: false, upd_y: false, move_cursor: false, save: true })
            },
            Motion::UpperInsert => {
                let target = first_word_idx(&self.cursor_pos, &self.rope);
                self.update_cursor_from_char_idx(target);
                self.change_mode(Mode::Insert);
                Some(Plan { start: char_idx, end: char_idx, target, upd_x: false, upd_y: false, move_cursor: false, save: true })
            },
            Motion::Append => {
                self.cursor_pos.x = self.cursor_pos.x + 1;
                self.change_mode(Mode::Insert);
                Some(Plan { start: char_idx, end: char_idx, target: char_idx, upd_x: false, upd_y: false, move_cursor: false, save: true })
            },
            Motion::UpperAppend => {
                if is_empty_line(&rope_line(&self.rope, y)) {
                    self.change_mode(Mode::Insert);
                }
                let target = line_end_idx(char_idx, &self.rope);
                self.update_cursor_from_char_idx(target);
                self.change_mode(Mode::Insert);
                Some(Plan { start: char_idx, end: char_idx, target, upd_x: false, upd_y: false, move_cursor: false, save: true })
            },
            _ => {
                // `C` on an empty line
                self.change_mode(Mode::Insert);
                None
            },
        }
    }
}

impl App {
    /// `o`.
    fn open_below_exec(&mut self, char_idx: usize)
        requires
            char_idx == cursor_idx(old(self)@),
            old(self).cursor_fits(),
            rope_fits(rope_text(old(self).rope)),
            ({
                let t = rope_text(old(self).rope);
                let lci = line_end(t, char_idx as int);
                let ws = leading_blanks(line_text(t, old(self).cursor_pos.y as int));
                &&& sat_sub(lci, 1) < t.len()
                &&& lci + str_len(ws) + 5 <= usize::MAX
                &&& old(self).cursor_pos.y + 1 <= usize::MAX
            }),
        ensures
            final(self)@ == open_below(old(self)@),
    {
        let ghost t = rope_text(self.rope);
        let y = self.cursor_pos.y;
        proof {
            lemma_line_bounds(t, y as int);
        }
        self.change_mode(Mode::Insert);
        let mut text = String::new();
        push_char(&mut text, '\n');
        let last_char_idx = line_end_idx(char_idx, &self.rope);
        proof {
            crate::scan::lemma_first_from(char_idx as int, t.len() as int, |k: int| t[k] == '\n');
        }
        let last_char = rope_char(
            &self.rope,
            if last_char_idx >= 1 {
                last_char_idx - 1
            } else {
                0
            },
        );
        if is_opening(last_char) {
            let curr_line = rope_line(&self.rope, y);
            let whitespace = leading_whitespace(&curr_line);
            text.append(whitespace.as_str());
            text.append("    ");
            proof {
                reveal_strlit("    ");
            }
            assert(text@ =~= seq!['\n'] + whitespace@ + tab_text());
            rope_insert(&mut self.rope, last_char_idx, text.as_str());
            push_char(&mut self.last_insertion.1, '\n');
            self.update_cursor_from_char_idx(last_char_idx + whitespace.as_str().len() + 5);
        } else {
            let (insert_pos, whitespace) = new_line_below_idx(&self.cursor_pos, &self.rope);
            proof {
                lemma_line_bounds(t, y as int);
            }
            text.append(whitespace.as_str());
            rope_insert(&mut self.rope, insert_pos, text.as_str());
            self.cursor_pos.y = y + 1;
            self.cursor_pos.x = whitespace.as_str().unicode_len();
        }
    }

    /// `O`.
    fn open_above_exec(&mut self)
        requires
            old(self).cursor_fits(),
        ensures
            final(self)@ == open_above(old(self)@),
    {
        let ghost t = rope_text(self.rope);
        proof {
            lemma_line_bounds(t, self.cursor_pos.y as int);
        }
        let (insert_pos, whitespace) = new_line_above_idx(&self.cursor_pos, &self.rope);
        let mut insert_str = whitespace.clone();
        push_char(&mut insert_str, '\n');
        rope_insert(&mut self.rope, insert_pos, insert_str.as_str());
        self.cursor_pos.x = whitespace.as_str().unicode_len();
        self.change_mode(Mode::Insert);
    }
}

/// Pastes the strings of a block line by line from line `y` on at column `x`
/// (after the char there, when it is not a `\n` and `after`); returns where
/// the cursor is sent.
fn paste_block(rope: &mut Rope, y0: usize, x: usize, strings: &Vec<String>, after: bool, char_idx: usize) -> (target: usize)
    requires
        block_paste_ok(rope_text(*old(rope)), y0 as int, x as int, strings@.map_values(|s: String| s@), after),
        block_fits(char_idx as int, strings@.map_values(|s: String| s@)),
    ensures
        rope_text(*final(rope)) == pasted_block(
            rope_text(*old(rope)),
            y0 as int,
            x as int,
            strings@.map_values(|s: String| s@),
            after,
        ),
        target == block_target(char_idx as int, strings@.map_values(|s: String| s@)),
{
    let ghost strs = strings@.map_values(|s: String| s@);
    let ghost t0 = rope_text(*rope);
    let mut y = y0;
    let mut target = char_idx;
    let mut i: usize = 0;
    assert(strs.skip(0) =~= strs);
    assert(strs.take(0) =~= Seq::<Seq<char>>::empty());
    while i < strings.len()
        invariant
            strs == strings@.map_values(|s: String| s@),
            i <= strings@.len(),
            y == y0 + i,
            block_paste_ok(rope_text(*rope), y as int, x as int, strs.skip(i as int), after),
            pasted_block(rope_text(*rope), y as int, x as int, strs.skip(i as int), after)
                == pasted_block(t0, y0 as int, x as int, strs, after),
            target == block_target(char_idx as int, strs.take(i as int)),
            block_fits(char_idx as int, strs),
        decreases strings@.len() - i,
    {
        let ghost rest = strs.skip(i as int);
        assert(rest[0] == strings@[i as int]@);
        assert(rest.drop_first() =~= strs.skip(i + 1));
        let s = &strings[i];
        let mut insert_idx = rope_line_to_char(rope, y) + x;
        if after {
            if rope_char(rope, insert_idx) != '\n' {
                insert_idx = insert_idx + 1;
            }
        }
        rope_insert(rope, insert_idx, s.as_str());
        assert(strs.take(i + 1).last() == s@);
        assert(char_idx + str_len(strs[i as int]) <= usize::MAX);
        target = char_idx + s.as_str().len();
        y = y + 1;
        i = i + 1;
    }
    assert(strs.take(i as int) =~= strs);
    assert(strs.skip(i as int).len() == 0);
    target
}

impl App {
    /// `p`.
    fn paste_after_exec(&mut self, visual_mode: bool, char_idx: usize) -> (r: Option<Plan>)
        requires
            char_idx == cursor_idx(old(self)@),
            char_idx <= rope_text(old(self).rope).len(),
            old(self).cursor_fits(),
            rope_fits(rope_text(old(self).rope)),
            paste_after_ok(old(self)@, visual_mode),
            old(self).main_height >= SCROLL_OFFSET + 1,
            old(self).top_line + SCROLL_OFFSET <= usize::MAX,
        ensures
            (final(self)@, r) == paste_after(old(self)@, visual_mode),
    {
        broadcast use vstd::std_specs::hash::group_hash_axioms;

        let ghost a = self@;
        let ghost t = rope_text(self.rope);
        proof {
            crate::text::lemma_chars_le_bytes(t);
        }
        let saving_plan = Plan {
            start: char_idx,
            end: char_idx,
            target: char_idx,
            upd_x: false,
            upd_y: false,
            move_cursor: false,
            save: true,
        };
        let y = self.cursor_pos.y;
        let x = self.cursor_pos.x;
        match self.yank_buffer.get(&UNNAMED) {
            None => {
                assert(unnamed(a) is None);
                Some(saving_plan)
            },
            Some(YankBuffer::Chars(content)) => {
                let content = content.clone();
                self.paste_text_after(content, false, visual_mode, char_idx);
                None
            },
            Some(YankBuffer::Lines(content)) => {
                let content = content.clone();
                self.paste_text_after(content, true, visual_mode, char_idx);
                None
            },
            Some(YankBuffer::Block(strings)) => {
                assert(unnamed(a) == Some(YankView::Block(strings@.map_values(|s: String| s@))));
                let target = paste_block(&mut self.rope, y, x, strings, true, char_idx);
                Some(Plan { target, ..saving_plan })
            },
        }
    }


    /// `p` of chars or lines: after the cursor, below its line, or over the
    /// first selection; the selections go and normal mode comes back.
    #[verifier::rlimit(80)]
    fn paste_text_after(&mut self, content: String, lines: bool, visual_mode: bool, char_idx: usize)
        requires
            char_idx == cursor_idx(old(self)@),
            char_idx <= rope_text(old(self).rope).len(),
            old(self).cursor_fits(),
            rope_fits(rope_text(old(self).rope)),
            unnamed(old(self)@) == Some(
                if lines {
                    YankView::Lines(content@)
                } else {
                    YankView::Chars(content@)
                },
            ),
            paste_after_ok(old(self)@, visual_mode),
            old(self).main_height >= SCROLL_OFFSET + 1,
            old(self).top_line + SCROLL_OFFSET <= usize::MAX,
        ensures
            final(self)@ == paste_after(old(self)@, visual_mode).0,
    {
        broadcast use vstd::std_specs::hash::group_hash_axioms;

        let ghost a = self@;
        let ghost t = rope_text(self.rope);
        let y = self.cursor_pos.y;
        proof {
            crate::text::lemma_chars_le_bytes(t);
            lemma_line_bounds(t, y as int);
        }
        let mut insert_idx = if lines {
            // insert line below
            rope_line_to_char(&self.rope, y + 1)
        } else if rope_char(&self.rope, char_idx) != '\n' {
            char_idx + 1
        } else {
            // if on empty line, insert before cursor
            char_idx
        };
        let mut new_content = String::new();
        if visual_mode && self.selections.len() > 0 {
            let sel = self.selections[0];
            let start = if sel.ancor <= sel.cursor {
                sel.ancor
            } else {
                sel.cursor
            };
            let end = if sel.ancor >= sel.cursor {
                sel.ancor
            } else {
                sel.cursor
            };
            if !lines {
                new_content = slice_to_string(&rope_slice(&self.rope, start, end + 1));
            }
            rope_remove(&mut self.rope, start, end + 1);
            insert_idx = start;
        }
        rope_insert(&mut self.rope, insert_idx, content.as_str());
        let len = content.as_str().len();
        let target = if insert_idx + len >= 1 {
            insert_idx + len - 1
        } else {
            0
        };
        self.selections.clear();
        if !lines {
            self.yank_buffer.insert(UNNAMED, YankBuffer::Chars(new_content));
            proof {
                assert(self@.yank =~= a.yank.insert(UNNAMED, YankView::Chars(new_content@)));
            }
        }
        self.update_cursor_from_char_idx(target);
        self.return_to_normal_mode();
    }

    /// `P`.
    fn paste_before_exec(&mut self, char_idx: usize) -> (r: Option<Plan>)
        requires
            char_idx == cursor_idx(old(self)@),
            char_idx <= rope_text(old(self).rope).len(),
            old(self).cursor_fits(),
            rope_fits(rope_text(old(self).rope)),
            paste_before_ok(old(self)@),
        ensures
            (final(self)@, r) == paste_before(old(self)@),
    {
        broadcast use vstd::std_specs::hash::group_hash_axioms;

        let ghost a = self@;
        let ghost t = rope_text(self.rope);
        proof {
            crate::text::lemma_chars_le_bytes(t);
        }
        let saving_plan = Plan {
            start: char_idx,
            end: char_idx,
            target: char_idx,
            upd_x: false,
            upd_y: false,
            move_cursor: false,
            save: true,
        };
        let y = self.cursor_pos.y;
        let x = self.cursor_pos.x;
        proof {
            lemma_line_bounds(t, y as int);
        }
        match self.yank_buffer.get(&UNNAMED) {
            None => {
                assert(unnamed(a) is None);
                Some(saving_plan)
            },
            Some(YankBuffer::Chars(content)) => {
                assert(unnamed(a) == Some(YankView::Chars(content@)));
                // insert before cursor
                rope_insert(&mut self.rope, char_idx, content.as_str());
                Some(Plan { target: char_idx + content.as_str().len() - 1, ..saving_plan })
            },
            Some(YankBuffer::Lines(content)) => {
                assert(unnamed(a) == Some(YankView::Lines(content@)));
                // insert line above
                let idx = rope_line_to_char(&self.rope, y);
                rope_insert(&mut self.rope, idx, content.as_str());
                Some(Plan { target: idx, ..saving_plan })
            },
            Some(YankBuffer::Block(strings)) => {
                assert(unnamed(a) == Some(YankView::Block(strings@.map_values(|s: String| s@))));
                let target = paste_block(&mut self.rope, y, x, strings, false, char_idx);
                Some(Plan { target, ..saving_plan })
            },
        }
    }
}

/// Whether the text of a slice holds a `\n`.
fn slice_has_newline(slice: &RopeSlice) -> (r: bool)
    ensures
        r == slice_text(*slice).contains('\n'),
{
    let n = slice_len_chars(slice);
    let mut i: usize = 0;
    while i < n
        invariant
            n == slice_text(*slice).len(),
            i <= n,
            forall|k: int| 0 <= k < i ==> slice_text(*slice)[k] != '\n',
        decreases n - i,
    {
        if slice_char(slice, i) == '\n' {
            return true;
        }
        i += 1;
    }
    false
}

impl App {
    /// The motion of a command (all but `.`): see `step_effect`.
    fn motion_step(&mut self, command: &Command, count: usize, visual_mode: bool) -> (r: Option<Plan>)
        requires
            step_ok(old(self)@, command@, count as nat, visual_mode),
            command.motion != Some(Motion::Repeat),
        ensures
            (final(self)@, r) == step_effect(old(self)@, command@, count as nat, visual_mode),
    {
        let ghost t = rope_text(self.rope);
        proof {
            lemma_line_bounds(t, self.cursor_pos.y as int);
        }
        let char_idx = self.get_char_idx();
        let saving_plan = Plan {
            start: char_idx,
            end: char_idx,
            target: char_idx,
            upd_x: false,
            upd_y: false,
            move_cursor: false,
            save: true,
        };
        match command.motion {
            Some(Motion::EnterSearchMode) => self.mode_step(Motion::EnterSearchMode, char_idx),
            Some(Motion::EnterCommandMode) => self.mode_step(Motion::EnterCommandMode, char_idx),
            Some(Motion::VisualMode) => self.mode_step(Motion::VisualMode, char_idx),
            Some(Motion::InsertMode) => self.mode_step(Motion::InsertMode, char_idx),
            Some(Motion::UpperInsert) => self.mode_step(Motion::UpperInsert, char_idx),
            Some(Motion::Append) => self.mode_step(Motion::Append, char_idx),
            Some(Motion::UpperAppend) => self.mode_step(Motion::UpperAppend, char_idx),
            Some(Motion::NewLineBelow) => {
                self.open_below_exec(char_idx);
                Some(saving_plan)
            },
            Some(Motion::NewLineAbove) => {
                self.open_above_exec();
                Some(saving_plan)
            },
            Some(Motion::UpperChange) if is_empty_line(&rope_line(&self.rope, self.cursor_pos.y)) => {
                self.mode_step(Motion::UpperChange, char_idx)
            },
            Some(Motion::Paste) => self.paste_after_exec(visual_mode, char_idx),
            Some(Motion::UpperPaste) => self.paste_before_exec(char_idx),
            _ => match self.plan_motion(command.motion, command.action, count) {
                Some((c, p)) => {
                    self.cursor_pos = c;
                    Some(p)
                },
                None => None,
            },
        }
    }

    /// The selections once the command has moved (see `selections_after`).
    fn update_selections(&mut self, p: Plan)
        requires
            rope_fits(rope_text(old(self).rope)),
            old(self).mode matches Mode::VisualLine(y) ==> (old(self).selections@.len() > 0 ==> y <= line_count(
                rope_text(old(self).rope),
            ) && p.target <= rope_text(old(self).rope).len()),
        ensures
            final(self)@ == selections_after(old(self)@, p),
    {
        let ghost t = rope_text(self.rope);
        match self.mode {
            Mode::VisualLine(y) => {
                // if cursor is after ancor, ancor is at start of line
                // else ancor is at end of line
                if self.selections.len() > 0 {
                    let sel = self.selections[0];
                    let ns = if p.target >= sel.ancor {
                        VisualSelection {
                            ancor: rope_line_to_char(&self.rope, y),
                            cursor: line_end_idx(p.target, &self.rope),
                        }
                    } else {
                        let start = rope_line_to_char(&self.rope, y);
                        let curr_line = rope_char_to_line(&self.rope, p.target);
                        proof {
                            lemma_char_line(t, p.target as int);
                        }
                        VisualSelection {
                            ancor: line_end_idx(start, &self.rope),
                            cursor: rope_line_to_char(&self.rope, curr_line),
                        }
                    };
                    self.selections.set(0, ns);
                }
            },
            Mode::Visual => {
                if self.selections.len() > 0 {
                    let sel = VisualSelection { cursor: p.target, ..self.selections[0] };
                    self.selections.set(0, sel);
                }
            },
            Mode::VisualBlock => {
                self.selections.clear();
            },
            _ => {
                let new_sel = VisualSelection {
                    ancor: p.start,
                    cursor: if p.end >= 1 {
                        p.end - 1
                    } else {
                        0
                    },
                };
                self.selections.clear();
                self.selections.push(new_sel);
                assert(self.selections@ =~= seq![new_sel]);
            },
        }
    }

    /// The unnamed register after an action (see `yanked`).
    fn yank_range(&mut self, command: &Command, start: usize, end: usize)
        requires
            rope_fits(rope_text(old(self).rope)),
            command.action is Some && old(self).mode == Mode::VisualBlock && old(self).visual_block_rng is Some
                ==> {
                let b = old(self).visual_block_rng->Some_0;
                let t = rope_text(old(self).rope);
                &&& block_hi(b.y_rng) < line_count(t)
                &&& forall|y: int| block_lo(b.y_rng) <= y <= block_hi(b.y_rng) ==> #[trigger] line_start(t, y) + block_hi(b.x_rng) + 1 <= usize::MAX
            },
        ensures
            final(self)@ == yanked(old(self)@, command@, (start as int, end as int)),
    {
        broadcast use vstd::std_specs::hash::group_hash_axioms;

        let ghost a = self@;
        let ghost t = rope_text(self.rope);
        if command.action.is_none() {
            return;
        }
        if self.mode == Mode::VisualBlock {
            if let Some(rng) = self.visual_block_rng {
                let x0 = if rng.x_rng[0] <= rng.x_rng[1] {
                    rng.x_rng[0]
                } else {
                    rng.x_rng[1]
                };
                let x1 = if rng.x_rng[0] >= rng.x_rng[1] {
                    rng.x_rng[0]
                } else {
                    rng.x_rng[1]
                };
                let y0 = if rng.y_rng[0] <= rng.y_rng[1] {
                    rng.y_rng[0]
                } else {
                    rng.y_rng[1]
                };
                let y1 = if rng.y_rng[0] >= rng.y_rng[1] {
                    rng.y_rng[0]
                } else {
                    rng.y_rng[1]
                };
                let mut slices: Vec<String> = Vec::new();
                let mut y = y0;
                while y <= y1
                    invariant
                        t == rope_text(self.rope),
                        y0 <= y <= y1 + 1,
                        x0 <= x1,
                        x1 == block_hi(rng.x_rng),
                        y0 == block_lo(rng.y_rng),
                        y1 == block_hi(rng.y_rng),
                        y1 < line_count(t),
                        rope_fits(t),
                        forall|yy: int| y0 <= yy <= y1 ==> #[trigger] line_start(t, yy) + x1 + 1 <= usize::MAX,
                        slices@.map_values(|s: String| s@) == block_upto(t, x0 as int, x1 as int, y0 as int, y as int),
                    decreases y1 + 1 - y,
                {
                    assert(line_start(t, y as int) + x1 + 1 <= usize::MAX);
                    let line_char = rope_line_to_char(&self.rope, y);
                    let start = line_char + x0;
                    let end = line_char + x1;
                    if let Some(slice) = rope_get_slice(&self.rope, start, end + 1) {
                        let s = slice_to_string(&slice);
                        slices.push(s);
                    }
                    assert(slices@.map_values(|s: String| s@) =~= block_upto(t, x0 as int, x1 as int, y0 as int, y + 1));
                    y = y + 1;
                }
                self.yank_buffer.insert(UNNAMED, YankBuffer::Block(slices));
                assert(self@.yank =~= a.yank.insert(
                    UNNAMED,
                    YankView::Block(block_upto(t, x0 as int, x1 as int, y0 as int, y1 + 1)),
                ));
            }
        } else if let Some(slice) = rope_get_slice(&self.rope, start, end) {
            let yank_lines = slice_has_newline(&slice);
            let content = slice_to_string(&slice);
            let new_content = if yank_lines {
                YankBuffer::Lines(content)
            } else {
                YankBuffer::Chars(content)
            };
            self.yank_buffer.insert(UNNAMED, new_content);
            assert(self@.yank =~= a.yank.insert(UNNAMED, new_content@));
        }
    }
}

impl App {
    /// The action on the range (see `acted`).
    fn act(&mut self, command: &Command, start: usize, end: usize, visual_mode: bool)
        requires
            command.action is Some && command.action != Some(Action::Yank) ==> start <= end <= rope_text(
                old(self).rope,
            ).len(),
        ensures
            final(self)@ == acted(old(self)@, command@, (start as int, end as int), visual_mode),
    {
        let ghost a = self@;
        match command.action {
            Some(Action::Yank) => {
                if !visual_mode {
                    self.highlight_yank = true;
                }
                self.cursor_pos.preferred_x = self.cursor_pos.x;
                self.cursor_pos.preferred_y = self.cursor_pos.y;
                self.change_mode(Mode::Normal);
            },
            Some(act) => {
                let action = undo::Action::Delete {
                    idx: start,
                    content: slice_to_string(&rope_slice(&self.rope, start, end)),
                };
                self.undo_vec.push(action);
                assert(actions_view(self.undo_vec@) =~= a.undo.push(action@));
                // delete range
                rope_remove(&mut self.rope, start, end);
                self.cursor_pos.preferred_x = self.cursor_pos.x;
                if act == Action::Change {
                    self.change_mode(Mode::Insert);
                } else {
                    self.change_mode(Mode::Normal);
                }
            },
            None => {},
        }
    }

    /// The selections and the register once the motion is done, and the
    /// action; returns the range acted on.
    fn finish_action(&mut self, command: &Command, p: Plan, visual_mode: bool) -> (r: (usize, usize))
        requires
            action_ok(old(self)@, command@, p, visual_mode),
        ensures
            ({
                let a1 = selections_after(old(self)@, p);
                let rr = command_range(a1, command@, p, visual_mode);
                &&& r.0 as int == rr.0
                &&& r.1 as int == rr.1
                &&& final(self)@ == acted(yanked(a1, command@, rr), command@, rr, visual_mode)
            }),
    {
        self.update_selections(p);
        let mut start = p.start;
        let mut end = p.end;
        // sync char range to visual selection
        if visual_mode && self.selections.len() > 0 {
            let sel = self.selections[0];
            start = if sel.ancor <= sel.cursor {
                sel.ancor
            } else {
                sel.cursor
            };
            end = if sel.ancor >= sel.cursor {
                sel.ancor
            } else {
                sel.cursor
            };
            if command.action.is_some() {
                end = end + 1;
            }
        }
        self.yank_range(command, start, end);
        self.act(command, start, end, visual_mode);
        (start, end)
    }

    /// The rest of a command once its motion has given the plan `p` (see
    /// `finished`).
    fn finish(&mut self, command: &Command, p: Plan, visual_mode: bool, repeat: bool)
        requires
            finish_ok(old(self)@, command@, p, visual_mode, repeat),
        ensures
            final(self)@ == finished(old(self)@, command@, p, visual_mode, repeat),
    {
        let (start, end) = self.finish_action(command, p, visual_mode);
        self.finish_rest(command, p, visual_mode, repeat, start, end);
    }

    /// The last steps of a command (see `finished_from`).
    #[verifier::rlimit(60)]
    fn finish_rest(&mut self, command: &Command, p: Plan, visual_mode: bool, repeat: bool, start: usize, end: usize)
        requires
            tail_ok(old(self)@, command@, p, visual_mode, repeat, (start as int, end as int)),
        ensures
            final(self)@ == finished_from(old(self)@, command@, p, visual_mode, repeat, (start as int, end as int)),
    {
        let ghost a3 = self@;
        let move_cursor = match command.action {
            Some(Action::Yank) => false,
            _ => p.move_cursor,
        };
        let target = match command.action {
            Some(Action::Delete) | Some(Action::Change) => start,
            _ => p.target,
        };
        if self.mode == Mode::Insert && !repeat {
            self.last_insertion.1 = String::new();
            self.last_insertion.0 = self.get_char_idx();
            if matches!(command.motion, Some(Motion::NewLineBelow)) || matches!(
                command.motion,
                Some(Motion::NewLineAbove),
            ) {
                push_char(&mut self.last_insertion.1, '\n');
            }
        }
        assert(self@ == recorded(a3, command@, repeat));
        if p.save && !visual_mode {
            self.last_command = command.clone();
        }
        if move_cursor {
            self.update_cursor_from_char_idx(target);
            self.ensure_valid_normal_pos();
        }
        if p.upd_x {
            self.cursor_pos.preferred_x = self.cursor_pos.x;
        }
        if p.upd_y {
            self.cursor_pos.preferred_y = self.cursor_pos.y;
        }
        proof {
            crate::text::lemma_chars_le_bytes(rope_text(self.rope));
        }
        // check for matching bracket
        self.matching_bracket_idx = find_matching_bracket(self.get_char_idx(), &self.rope);
        self.scroll(self.cursor_pos.y);
    }

    /// Carries out a command (`repeat` when `.` runs it again): its motion,
    /// then the selection, the register, the action, the cursor and the view;
    /// `.` runs the last kept command again (see `command_effect`).
    #[verifier::spinoff_prover]
    #[verifier::rlimit(60)]
    pub fn execute_command(&mut self, command: Command, visual_mode: bool, repeat: bool)
        requires
            command_ok(old(self)@, command@, visual_mode, repeat),
        ensures
            final(self)@ == command_effect(old(self)@, command@, visual_mode, repeat),
            !visual_mode && !repeat && old(self)@.mode == Mode::Normal && is_plain_motion(command@.motion) ==> {
                &&& command@.action == Some(Action::Yank) ==> yank_kept(old(self)@, final(self)@)
                &&& (command@.action == Some(Action::Delete) || command@.action == Some(Action::Change))
                    ==> delete_recorded(old(self)@, final(self)@)
            },
        decreases (if repeat {
            0int
        } else {
            1int
        }),
    {
        let ghost a = self@;
        proof {
            if !visual_mode && !repeat && a.mode == Mode::Normal && is_plain_motion(command@.motion) {
                if command@.action == Some(Action::Yank) {
                    lemma_yank_keeps_text(a, command@);
                }
                if command@.action == Some(Action::Delete) || command@.action == Some(Action::Change) {
                    lemma_delete_undone(a, command@);
                }
            }
        }
        self.parser.reset();
        let count = match parse_count(command.count.as_str()) {
            Some(n) => n,
            None => 1,
        };
        if matches!(command.motion, Some(Motion::Repeat)) {
            let last = self.last_command.clone();
            self.execute_command(last, visual_mode, true);
            if self.mode == Mode::Insert {
                let idx = self.get_char_idx();
                rope_insert(&mut self.rope, idx, self.last_insertion.1.as_str());
                self.update_cursor_from_char_idx(idx + self.last_insertion.1.as_str().len() - 1);
                self.ensure_valid_normal_pos();
            }
            self.change_mode(Mode::Normal);
            return;
        }
        if let Some(p) = self.motion_step(&command, count, visual_mode) {
            self.finish(&command, p, visual_mode, repeat);
        }
    }
}

/// The path of a buffer that has no file yet.
pub open spec fn new_path() -> Seq<char> {
    seq!['[', 'n', 'e', 'w', ']']
}

/// A char that is not white space, at a position of `s`.
pub open spec fn not_white_at(s: Seq<char>) -> spec_fn(int) -> bool {
    |k: int| !is_white(s[k])
}

/// A white space char at a position of `s`.
pub open spec fn white_at(s: Seq<char>) -> spec_fn(int) -> bool {
    |k: int| is_white(s[k])
}

/// The next word of `s` from `from` on (as `str::split_whitespace` splits):
/// its start and end.
pub open spec fn token_at(s: Seq<char>, from: int) -> Option<(int, int)> {
    let a = first_from(from, s.len() as int, not_white_at(s));
    if a < s.len() {
        Some((a, first_from(a, s.len() as int, white_at(s))))
    } else {
        None
    }
}

/// The first word of the command bar: the command.
pub open spec fn bar_command(s: Seq<char>) -> Option<Seq<char>> {
    match token_at(s, 0) {
        Some(p) => Some(s.subrange(p.0, p.1)),
        None => None,
    }
}

/// The second word of the command bar: the command's argument.
pub open spec fn bar_argument(s: Seq<char>) -> Option<Seq<char>> {
    match token_at(s, 0) {
        Some(p) => match token_at(s, p.1) {
            Some(q) => Some(s.subrange(q.0, q.1)),
            None => None,
        },
        None => None,
    }
}

/// A request to write the text to a file: the path, whether the buffer takes
/// that path once written, and whether the editor quits afterwards.
pub struct WriteRequest {
    pub path: String,
    pub rename: bool,
    pub quit: bool,
}

/// What a write request holds.
pub struct WriteView {
    pub path: Seq<char>,
    pub rename: bool,
    pub quit: bool,
}

impl View for WriteRequest {
    type V = WriteView;

    open spec fn view(&self) -> WriteView {
        WriteView { path: self.path@, rename: self.rename, quit: self.quit }
    }
}

/// The views of an optional write request.
pub open spec fn opt_write(r: Option<WriteRequest>) -> Option<WriteView> {
    match r {
        Some(w) => Some(w@),
        None => None,
    }
}

/// The char index of the place the cursor left for the command bar.
pub open spec fn preferred_idx(a: AppView) -> int {
    line_start(a.text, a.cursor.preferred_y as int) + a.cursor.preferred_x
}

/// The cursor back at the place it left for the command bar.
pub open spec fn back_to_preferred(a: AppView) -> AppView {
    AppView { cursor: CursorPos { y: a.cursor.preferred_y, x: a.cursor.preferred_x, ..a.cursor }, ..a }
}

/// Whether `s` starts with `:%s/`, the substitute command.
pub open spec fn is_substitute(s: Seq<char>) -> bool {
    s.len() >= 4 && s.take(4) == seq![':', '%', 's', '/']
}

/// Replacing, `fuel` times at most, the next match of `q` after `ci` by `r`
/// until there is none: the text then, or `None` when a step would read or
/// write outside the text or the fuel runs out.
pub open spec fn replaced(t: Seq<char>, ci: int, q: Seq<char>, r: Seq<char>, fuel: nat) -> Option<Seq<char>>
    decreases fuel,
{
    if fuel == 0 {
        None
    } else if !(ci <= t.len() && ci < usize::MAX && ci + line_len(t, breaks_before(t, ci) as int) <= usize::MAX
        && rope_fits(t)) {
        None
    } else {
        match next_search_result(t, ci, q, None) {
            None => Some(t),
            Some(i) => if i + str_len(q) <= t.len() {
                replaced(inserted(removed(t, i, i + str_len(q)), i, r), ci, q, r, (fuel - 1) as nat)
            } else {
                None
            },
        }
    }
}

/// Whether replacing all matches ends, every step within the text.
pub open spec fn replace_ends(t: Seq<char>, ci: int, q: Seq<char>, r: Seq<char>) -> bool {
    exists|fuel: nat| #[trigger] replaced(t, ci, q, r, fuel) is Some
}

/// Enough fuel for replacing all matches, when some is.
pub open spec fn replace_fuel(t: Seq<char>, ci: int, q: Seq<char>, r: Seq<char>) -> nat {
    choose|fuel: nat| #[trigger] replaced(t, ci, q, r, fuel) is Some
}

/// The text once every match of `q` after `ci` is replaced by `r`.
pub open spec fn replace_all(t: Seq<char>, ci: int, q: Seq<char>, r: Seq<char>) -> Seq<char> {
    replaced(t, ci, q, r, replace_fuel(t, ci, q, r))->Some_0
}

/// The selection of a match of `q` at `i`.
pub open spec fn match_sel(i: int, q: Seq<char>) -> VisualSelection {
    VisualSelection { ancor: i as usize, cursor: (i + str_len(q) - 1) as usize }
}

/// Selecting, `fuel` times at most, the next match of `q` in the lines `rng`
/// from `idx` on until a match comes round again: the selections and that
/// match, or `None` when a step would read outside the text, overflow, or the
/// fuel runs out.
pub open spec fn highlight_walk(
    t: Seq<char>,
    q: Seq<char>,
    rng: (int, int),
    idx: int,
    sels: Seq<VisualSelection>,
    fuel: nat,
) -> Option<(Seq<VisualSelection>, Option<int>)>
    decreases fuel,
{
    if fuel == 0 {
        None
    } else if !(idx <= t.len() && idx < usize::MAX && idx + line_len(t, breaks_before(t, idx) as int) <= usize::MAX
        && rope_fits(t)) {
        None
    } else {
        match next_search_result(t, idx, q, Some(rng)) {
            None => Some((sels, None)),
            Some(i) => if i + str_len(q) > usize::MAX {
                None
            } else if sels.contains(match_sel(i, q)) {
                if i <= t.len() {
                    Some((sels, Some(i)))
                } else {
                    None
                }
            } else {
                highlight_walk(t, q, rng, i, sels.push(match_sel(i, q)), (fuel - 1) as nat)
            },
        }
    }
}

/// Whether highlighting every match in view ends, every step within the text.
pub open spec fn highlight_ends(t: Seq<char>, q: Seq<char>, rng: (int, int), idx: int) -> bool {
    exists|fuel: nat| #[trigger] highlight_walk(t, q, rng, idx, Seq::empty(), fuel) is Some
}

/// Enough fuel for highlighting every match in view, when some is.
pub open spec fn highlight_fuel(t: Seq<char>, q: Seq<char>, rng: (int, int), idx: int) -> nat {
    choose|fuel: nat| #[trigger] highlight_walk(t, q, rng, idx, Seq::empty(), fuel) is Some
}

/// The selections of every match in view, and the match that came round.
pub open spec fn highlights(t: Seq<char>, q: Seq<char>, rng: (int, int), idx: int) -> (Seq<VisualSelection>, Option<int>) {
    highlight_walk(t, q, rng, idx, Seq::empty(), highlight_fuel(t, q, rng, idx))->Some_0
}

/// After the command bar changed in command or search mode: `:%s/` turns to
/// search mode and selects every match in view; a search selects the next
/// match and scrolls to it; an empty query scrolls back to the cursor's line.
pub open spec fn after_edit(a: AppView) -> AppView {
    let hl = is_substitute(a.command_bar);
    let a1 = if hl {
        AppView { mode: Mode::Search, ..a }
    } else {
        a
    };
    if a1.mode == Mode::Search {
        let q = query_of(a1.command_bar);
        let a2 = AppView { selections: Seq::empty(), query: q, ..a1 };
        if q.len() == 0 {
            scrolled(a2, a.cursor.preferred_y as int)
        } else if hl {
            let h = highlights(a.text, q, (a.lines_in_view@[0] as int, a.lines_in_view@[1] as int), preferred_idx(a));
            let a3 = AppView { selections: h.0, ..a2 };
            match h.1 {
                Some(i) => scrolled(a3, breaks_before(a.text, i) as int),
                None => a3,
            }
        } else {
            match next_search_result(a.text, preferred_idx(a), q, None) {
                Some(i) => scrolled(
                    AppView { selections: seq![match_sel(i, q)], ..a2 },
                    breaks_before(a.text, i) as int,
                ),
                None => a2,
            }
        }
    } else {
        a1
    }
}

/// What `after_edit` needs.
pub open spec fn after_edit_ok(a: AppView) -> bool {
    let hl = is_substitute(a.command_bar);
    let mode = if hl { Mode::Search } else { a.mode };
    let q = query_of(a.command_bar);
    let ci = preferred_idx(a);
    mode == Mode::Search ==> {
        &&& a.main_height >= SCROLL_OFFSET + 1
        &&& a.top_line + SCROLL_OFFSET <= usize::MAX
        &&& a.cursor.preferred_y <= line_count(a.text)
        &&& ci <= usize::MAX
        &&& encode_utf8(q).len() <= usize::MAX
        &&& q.len() > 0 ==> if hl {
            highlight_ends(a.text, q, (a.lines_in_view@[0] as int, a.lines_in_view@[1] as int), ci)
        } else {
            &&& ci <= a.text.len()
            &&& ci < usize::MAX
            &&& ci + line_len(a.text, breaks_before(a.text, ci) as int) <= usize::MAX
            &&& rope_fits(a.text)
            &&& (next_search_result(a.text, ci, q, None) matches Some(i) ==> i <= a.text.len() && i + str_len(q)
                <= usize::MAX)
        }
    }
}

/// The rest of Enter in command or search mode: a search jumps to the next
/// match, the cursor comes back, normal mode returns, and `:%s/q/r/`
/// replaces every match.
pub open spec fn enter_rest(a: AppView) -> AppView {
    let a1 = if a.mode == Mode::Search {
        let q = query_of(a.command_bar);
        let b = AppView { query: q, ..a };
        match next_search_result(a.text, preferred_idx(a), q, None) {
            Some(i) => {
                let b2 = cursor_put(b, i);
                AppView { cursor: CursorPos { preferred_y: b2.cursor.y, preferred_x: b2.cursor.x, ..b2.cursor }, ..b2 }
            },
            None => b,
        }
    } else {
        a
    };
    let a3 = back_to_normal(back_to_preferred(a1));
    let a4 = scrolled(a3, a3.cursor.y as int);
    if is_substitute(a4.command_bar) {
        let r = replacement_of(a4.command_bar);
        if a4.query.len() == 0 || r.len() == 0 {
            a4
        } else {
            AppView { text: replace_all(a4.text, preferred_idx(a4), a4.query, r), ..a4 }
        }
    } else {
        a4
    }
}

/// What `enter_rest` needs.
pub open spec fn enter_rest_ok(a: AppView) -> bool {
    let a1 = if a.mode == Mode::Search {
        let q = query_of(a.command_bar);
        let b = AppView { query: q, ..a };
        match next_search_result(a.text, preferred_idx(a), q, None) {
            Some(i) => {
                let b2 = cursor_put(b, i);
                AppView { cursor: CursorPos { preferred_y: b2.cursor.y, preferred_x: b2.cursor.x, ..b2.cursor }, ..b2 }
            },
            None => b,
        }
    } else {
        a
    };
    let a3 = back_to_normal(back_to_preferred(a1));
    let a4 = scrolled(a3, a3.cursor.y as int);
    let ci = preferred_idx(a);
    &&& a.main_height >= SCROLL_OFFSET + 1
    &&& a.top_line + SCROLL_OFFSET <= usize::MAX
    &&& a3.top_line + SCROLL_OFFSET <= usize::MAX
    &&& (a.mode == Mode::Search ==> {
        &&& a.cursor.preferred_y <= line_count(a.text)
        &&& ci <= a.text.len()
        &&& ci < usize::MAX
        &&& ci + line_len(a.text, breaks_before(a.text, ci) as int) <= usize::MAX
        &&& rope_fits(a.text)
    })
    &&& (is_substitute(a4.command_bar) && a4.query.len() > 0 && replacement_of(a4.command_bar).len() > 0 ==> {
        &&& a4.cursor.preferred_y <= line_count(a4.text)
        &&& preferred_idx(a4) <= usize::MAX
        &&& replace_ends(a4.text, preferred_idx(a4), a4.query, replacement_of(a4.command_bar))
    })
}

/// The message shown when `:w` has no file to write to.
pub open spec fn no_file_name() -> Seq<char> {
    "error: no file name specified"@
}

/// Enter in command or search mode: `:q` quits; `:w` (and `:wq`) ask for
/// the text to be written to the argument or to the buffer's path (or say
/// there is none); otherwise the rest of Enter.
pub open spec fn enter_effect(a: AppView) -> (AppView, Option<WriteView>) {
    let bar = a.command_bar;
    let cmd = bar_command(bar);
    let arg = bar_argument(bar);
    if cmd == Some(seq![':', 'q']) {
        (AppView { mode: Mode::Exit, ..a }, None)
    } else if cmd == Some(seq![':', 'w']) || cmd == Some(seq![':', 'w', 'q']) {
        let quit = cmd == Some(seq![':', 'w', 'q']);
        let a1 = AppView { command_bar: Seq::empty(), ..a };
        match arg {
            Some(p) => (a1, Some(WriteView { path: p, rename: a.path == new_path(), quit })),
            None => if a.path == new_path() {
                let a2 = AppView { command_bar: no_file_name(), ..a };
                if quit {
                    (AppView { mode: Mode::Exit, ..a2 }, None)
                } else {
                    (enter_rest(a2), None)
                }
            } else if a.path.len() > 0 {
                (a1, Some(WriteView { path: a.path, rename: false, quit }))
            } else if quit {
                (AppView { mode: Mode::Exit, ..a1 }, None)
            } else {
                (enter_rest(a1), None)
            },
        }
    } else {
        (enter_rest(a), None)
    }
}

/// What `enter_effect` needs.
pub open spec fn enter_ok(a: AppView) -> bool {
    let bar = a.command_bar;
    let cmd = bar_command(bar);
    let arg = bar_argument(bar);
    if cmd == Some(seq![':', 'q']) {
        true
    } else if cmd == Some(seq![':', 'w']) || cmd == Some(seq![':', 'w', 'q']) {
        let quit = cmd == Some(seq![':', 'w', 'q']);
        arg is None && !quit ==> if a.path == new_path() {
            enter_rest_ok(AppView { command_bar: no_file_name(), ..a })
        } else if a.path.len() > 0 {
            true
        } else {
            enter_rest_ok(AppView { command_bar: Seq::empty(), ..a })
        }
    } else {
        enter_rest_ok(a)
    }
}

/// Once the text was written (or not): the message goes to the command bar,
/// the buffer takes the new path if any, and the editor quits or finishes
/// the Enter.
pub open spec fn write_done_effect(a: AppView, message: Seq<char>, new_path: Option<Seq<char>>, quit: bool) -> AppView {
    let a1 = AppView {
        command_bar: a.command_bar + message,
        path: match new_path {
            Some(p) => p,
            None => a.path,
        },
        ..a
    };
    if quit {
        AppView { mode: Mode::Exit, ..a1 }
    } else {
        enter_rest(a1)
    }
}

/// A key in command or search mode.
pub open spec fn command_key(a: AppView, k: KeyCode) -> (AppView, Option<WriteView>) {
    match k {
        KeyCode::Enter => enter_effect(a),
        KeyCode::Char(c) => (after_edit(AppView { command_bar: a.command_bar.push(c), ..a }), None),
        KeyCode::Backspace => {
            let a1 = AppView { command_bar: popped(a.command_bar), ..a };
            let a2 = if a1.command_bar.len() == 0 {
                back_to_normal(back_to_preferred(a1))
            } else {
                a1
            };
            (after_edit(a2), None)
        },
        _ => (after_edit(a), None),
    }
}

/// What a key in command or search mode needs.
pub open spec fn command_key_ok(a: AppView, k: KeyCode) -> bool {
    match k {
        KeyCode::Enter => enter_ok(a),
        KeyCode::Char(c) => after_edit_ok(AppView { command_bar: a.command_bar.push(c), ..a }),
        KeyCode::Backspace => {
            let a1 = AppView { command_bar: popped(a.command_bar), ..a };
            &&& (a1.command_bar.len() == 0 ==> a.main_height >= SCROLL_OFFSET + 1 && a.top_line + SCROLL_OFFSET <= usize::MAX)
            &&& after_edit_ok(if a1.command_bar.len() == 0 {
                back_to_normal(back_to_preferred(a1))
            } else {
                a1
            })
        },
        _ => after_edit_ok(a),
    }
}

/// The chars of a string.
fn chars_of(s: &str) -> (v: Vec<char>)
    ensures
        v@ == s@,
{
    let mut v: Vec<char> = Vec::new();
    for c in it: s.chars()
        invariant
            it.seq() == s@,
            v@ == s@.take(it.index() as int),
    {
        v.push(c);
        assert(v@ =~= s@.take(it.index() + 1));
    }
    assert(v@ =~= s@);
    v
}

/// The next word of `v` from `from` on.
fn token(v: &Vec<char>, from: usize) -> (r: Option<(usize, usize)>)
    requires
        from <= v@.len(),
    ensures
        match r {
            Some(p) => token_at(v@, from as int) == Some((p.0 as int, p.1 as int)),
            None => token_at(v@, from as int) is None,
        },
        r matches Some(p) ==> from <= p.0 < p.1 <= v@.len(),
{
    let ghost s = v@;
    let n = v.len();
    let mut a = from;
    while a < n
        invariant
            s == v@,
            n == s.len(),
            from <= a <= n,
            forall|k: int| from <= k < a ==> !#[trigger] not_white_at(s)(k),
        ensures
            a == n || not_white_at(s)(a as int),
        decreases n - a,
    {
        if !is_whitespace(v[a]) {
            break;
        }
        a += 1;
    }
    proof {
        lemma_first_from_is(from as int, n as int, not_white_at(s), a as int);
    }
    if a == n {
        return None;
    }
    let mut b = a;
    while b < n
        invariant
            s == v@,
            n == s.len(),
            a <= b <= n,
            forall|k: int| a <= k < b ==> !#[trigger] white_at(s)(k),
        ensures
            b == n || white_at(s)(b as int),
        decreases n - b,
    {
        if is_whitespace(v[b]) {
            break;
        }
        b += 1;
    }
    proof {
        lemma_first_from_is(a as int, n as int, white_at(s), b as int);
    }
    Some((a, b))
}

/// Whether the chars of `v` in `a..b` are those of `w`.
fn chars_are(v: &Vec<char>, a: usize, b: usize, w: &[char]) -> (r: bool)
    requires
        a <= b <= v@.len(),
    ensures
        r == (v@.subrange(a as int, b as int) == w@),
{
    if b - a != w.len() {
        return false;
    }
    let mut i: usize = 0;
    while i < w.len()
        invariant
            a <= b <= v@.len(),
            b - a == w@.len(),
            i <= w@.len(),
            forall|k: int| 0 <= k < i ==> v@[a + k] == w@[k],
        decreases w@.len() - i,
    {
        if v[a + i] != w[i] {
            assert(v@.subrange(a as int, b as int)[i as int] != w@[i as int]);
            return false;
        }
        i += 1;
    }
    assert(v@.subrange(a as int, b as int) =~= w@);
    true
}

/// The chars of `v` in `a..b` as a string.
fn string_of(v: &Vec<char>, a: usize, b: usize) -> (s: String)
    requires
        a <= b <= v@.len(),
    ensures
        s@ == v@.subrange(a as int, b as int),
{
    let mut s = String::new();
    let mut i = a;
    while i < b
        invariant
            a <= i <= b <= v@.len(),
            s@ == v@.subrange(a as int, i as int),
        decreases b - i,
    {
        push_char(&mut s, v[i]);
        assert(s@ =~= v@.subrange(a as int, i + 1));
        i += 1;
    }
    s
}

/// Whether `s` is the path of a buffer with no file.
fn is_new_path(s: &String) -> (r: bool)
    ensures
        r == (s@ == new_path()),
{
    let v = chars_of(s.as_str());
    let r = chars_are(&v, 0, v.len(), &['[', 'n', 'e', 'w', ']']);
    assert(v@.subrange(0, v@.len() as int) =~= v@);
    assert(['[', 'n', 'e', 'w', ']']@ =~= new_path());
    r
}

/// Whether `s` starts with `:%s/`.
fn starts_substitute(s: &String) -> (r: bool)
    ensures
        r == is_substitute(s@),
{
    let v = chars_of(s.as_str());
    if v.len() < 4 {
        return false;
    }
    let r = chars_are(&v, 0, 4, &[':', '%', 's', '/']);
    assert(v@.subrange(0, 4) =~= v@.take(4));
    assert([':', '%', 's', '/']@ =~= seq![':', '%', 's', '/']);
    r
}

/// Whether `sels` holds `sel`.
fn holds_sel(sels: &Vec<VisualSelection>, sel: VisualSelection) -> (r: bool)
    ensures
        r == sels@.contains(sel),
{
    let mut i: usize = 0;
    while i < sels.len()
        invariant
            i <= sels@.len(),
            forall|k: int| 0 <= k < i ==> sels@[k] != sel,
        decreases sels@.len() - i,
    {
        if sels[i] == sel {
            return true;
        }
        i += 1;
    }
    false
}

/// Replaces every match of `query` after `char_idx` by `replacment`.
fn replace_matches(rope: &mut Rope, char_idx: usize, query: &str, replacment: &str)
    requires
        replace_ends(rope_text(*old(rope)), char_idx as int, query@, replacment@),
    ensures
        rope_text(*final(rope)) == replace_all(rope_text(*old(rope)), char_idx as int, query@, replacment@),
{
    let ghost t0 = rope_text(*rope);
    let ghost fuel = replace_fuel(t0, char_idx as int, query@, replacment@);
    let ghost mut left: nat = fuel;
    let qlen = query.len();
    loop
        invariant
            replaced(rope_text(*rope), char_idx as int, query@, replacment@, left) == replaced(
                t0,
                char_idx as int,
                query@,
                replacment@,
                fuel,
            ),
            replaced(t0, char_idx as int, query@, replacment@, fuel) is Some,
            fuel == replace_fuel(t0, char_idx as int, query@, replacment@),
            qlen == str_len(query@),
        ensures
            rope_text(*rope) == replace_all(t0, char_idx as int, query@, replacment@),
        decreases left,
    {
        let ghost t = rope_text(*rope);
        proof {
            assert(left > 0);
            crate::text::lemma_chars_le_bytes(t);
        }
        match next_search_result_idx(char_idx, query, rope, None) {
            Some(idx) => {
                // replace text
                rope_remove(rope, idx, idx + qlen);
                rope_insert(rope, idx, replacment);
                proof {
                    left = (left - 1) as nat;
                }
            },
            None => {
                assert(replaced(t, char_idx as int, query@, replacment@, left) == Some(t));
                break;
            },
        }
    }
}

impl App {
    /// Selects every match of the query in view from the place the cursor
    /// left on; scrolls to the match that comes round again.
    fn highlight_matches(&mut self)
        requires
            old(self).selections@.len() == 0,
            old(self).query@.len() > 0,
            encode_utf8(old(self).query@).len() <= usize::MAX,
            old(self).cursor_pos.preferred_y <= line_count(rope_text(old(self).rope)),
            preferred_idx(old(self)@) <= usize::MAX,
            highlight_ends(
                rope_text(old(self).rope),
                old(self).query@,
                (old(self).lines_in_view@[0] as int, old(self).lines_in_view@[1] as int),
                preferred_idx(old(self)@),
            ),
            old(self).main_height >= SCROLL_OFFSET + 1,
            old(self).top_line + SCROLL_OFFSET <= usize::MAX,
        ensures
            ({
                let a = old(self)@;
                let h = highlights(
                    a.text,
                    a.query,
                    (a.lines_in_view@[0] as int, a.lines_in_view@[1] as int),
                    preferred_idx(a),
                );
                let a3 = AppView { selections: h.0, ..a };
                final(self)@ == match h.1 {
                    Some(i) => scrolled(a3, breaks_before(a.text, i) as int),
                    None => a3,
                }
            }),
    {
        let ghost a = self@;
        let ghost t = a.text;
        let ghost q = a.query;
        let ghost rng = (a.lines_in_view@[0] as int, a.lines_in_view@[1] as int);
        let ghost fuel = highlight_fuel(t, q, rng, preferred_idx(a));
        proof {
            crate::text::lemma_chars_le_bytes(q);
        }
        let ghost mut left: nat = fuel;
        let qlen = self.query.as_str().len();
        let mut idx = rope_line_to_char(&self.rope, self.cursor_pos.preferred_y) + self.cursor_pos.preferred_x;
        let mut hit: Option<usize> = None;
        assert(self.selections@ =~= Seq::<VisualSelection>::empty());
        loop
            invariant_except_break
                hit is None,
                highlight_walk(t, q, rng, idx as int, self.selections@, left) == highlight_walk(
                    t,
                    q,
                    rng,
                    preferred_idx(a),
                    Seq::empty(),
                    fuel,
                ),
            invariant
                a == old(self)@,
                t == a.text,
                q == a.query,
                rng == (a.lines_in_view@[0] as int, a.lines_in_view@[1] as int),
                self@ == (AppView { selections: self@.selections, ..a }),
                qlen == str_len(q),
                q.len() > 0,
                str_len(q) >= 1,
                fuel == highlight_fuel(t, q, rng, preferred_idx(a)),
                highlight_walk(t, q, rng, preferred_idx(a), Seq::empty(), fuel) is Some,
            ensures
                ({
                    let h = highlights(t, q, rng, preferred_idx(a));
                    &&& self.selections@ == h.0
                    &&& h.1 == match hit {
                        Some(i) => Some(i as int),
                        None => None,
                    }
                    &&& self@ == (AppView { selections: self@.selections, ..a })
                    &&& hit matches Some(i) ==> i <= t.len()
                }),
            decreases left,
        {
            let ghost prev = idx as int;
            let ghost sels = self.selections@;
            proof {
                assert(left > 0);
                assert(highlight_walk(t, q, rng, prev, sels, left) is Some);
            }
            match next_search_result_idx(idx, self.query.as_str(), &self.rope, Some(self.lines_in_view)) {
                Some(i) => {
                    assert(opt_range(Some(self.lines_in_view)) == Some(rng));
                    assert(next_search_result(t, prev, q, Some(rng)) == Some(i as int));
                    assert(i + str_len(q) <= usize::MAX);
                    idx = i;
                    let sel = VisualSelection { ancor: idx, cursor: idx + qlen - 1 };
                    assert(sel == match_sel(i as int, q));
                    if holds_sel(&self.selections, sel) {
                        assert(highlight_walk(t, q, rng, prev, sels, left) == Some((sels, Some(i as int))));
                        hit = Some(idx);
                        break;
                    }
                    self.selections.push(sel);
                    proof {
                        left = (left - 1) as nat;
                    }
                },
                None => {
                    assert(opt_range(Some(self.lines_in_view)) == Some(rng));
                    assert(highlight_walk(t, q, rng, prev, sels, left) == Some((sels, None::<int>)));
                    break;
                },
            }
        }
        if let Some(i) = hit {
            let target_y = rope_char_to_line(&self.rope, i);
            self.scroll(target_y);
        }
    }
}

/// Esc or Ctrl-[.
pub open spec fn is_escape(k: KeyEvent) -> bool {
    k.code == KeyCode::Esc || (k.code == KeyCode::Char('[') && k.modifiers == CONTROL)
}

/// Escape: out of insert mode the cursor steps back, out of command or
/// search mode it goes back where it was; then normal mode.
pub open spec fn escaped(a: AppView) -> AppView {
    let c = a.cursor;
    let a1 = match a.mode {
        Mode::Insert => AppView { cursor: CursorPos { x: sat_sub(c.x as int, 1) as usize, ..c }, ..a },
        Mode::Command | Mode::Search => back_to_preferred(a),
        _ => a,
    };
    back_to_normal(a1)
}

/// The visual modes.
pub open spec fn is_visual(m: Mode) -> bool {
    m == Mode::Visual || m is VisualLine || m == Mode::VisualBlock
}

/// What a key does to the editor, and the write it asks for, if any.
pub open spec fn key_effect(a: AppView, k: KeyEvent) -> (AppView, Option<WriteView>) {
    if is_escape(k) {
        (escaped(a), None)
    } else {
        match a.mode {
            Mode::Command | Mode::Search => command_key(a, k.code),
            Mode::Insert => (typed_in_insert(a, k.code), None),
            _ => {
                let v = is_visual(a.mode);
                let s = step(a.keys, a.parser, k, v);
                let a1 = AppView { parser: s.0, ..a };
                match s.1 {
                    Some(c) => (command_effect(a1, c, v, false), None),
                    None => (a1, None),
                }
            },
        }
    }
}

/// What a key needs.
pub open spec fn key_ok(a: AppView, k: KeyEvent) -> bool {
    if is_escape(k) {
        a.main_height >= SCROLL_OFFSET + 1 && a.top_line + SCROLL_OFFSET <= usize::MAX
    } else {
        match a.mode {
            Mode::Command | Mode::Search => command_key_ok(a, k.code),
            Mode::Insert => insert_ok(a.text, a.cursor, k.code) && a.main_height >= SCROLL_OFFSET + 1 && a.top_line
                + SCROLL_OFFSET <= usize::MAX,
            _ => {
                let v = is_visual(a.mode);
                let s = step(a.keys, a.parser, k, v);
                s.1 matches Some(c) ==> command_ok(AppView { parser: s.0, ..a }, c, v, false)
            },
        }
    }
}

impl App {
    /// After the command bar changed (see `after_edit`).
    fn after_edit_exec(&mut self)
        requires
            after_edit_ok(old(self)@),
        ensures
            final(self)@ == after_edit(old(self)@),
    {
        let ghost a = self@;
        let highlight_all = starts_substitute(&self.command_bar);
        if highlight_all {
            self.mode = Mode::Search;
        }
        if self.mode == Mode::Search {
            self.selections.clear();
            self.query = extract_query(self.command_bar.as_str());
            if self.query.as_str().is_empty() {
                self.scroll(self.cursor_pos.preferred_y);
                return;
            }
            if highlight_all {
                self.highlight_matches();
            } else {
                let char_idx = rope_line_to_char(&self.rope, self.cursor_pos.preferred_y) + self.cursor_pos.preferred_x;
                if let Some(idx) = next_search_result_idx(char_idx, self.query.as_str(), &self.rope, None) {
                    proof {
                        crate::text::lemma_chars_le_bytes(self.query@);
                    }
                    let sel = VisualSelection { ancor: idx, cursor: idx + self.query.as_str().len() - 1 };
                    self.selections.push(sel);
                    assert(self.selections@ =~= seq![match_sel(idx as int, self.query@)]);
                    let target_y = rope_char_to_line(&self.rope, idx);
                    self.scroll(target_y);
                }
            }
        }
    }

    /// The rest of Enter (see `enter_rest`).
    fn enter_rest_exec(&mut self)
        requires
            enter_rest_ok(old(self)@),
        ensures
            final(self)@ == enter_rest(old(self)@),
    {
        if self.mode == Mode::Search {
            self.query = extract_query(self.command_bar.as_str());
            let char_idx = rope_line_to_char(&self.rope, self.cursor_pos.preferred_y) + self.cursor_pos.preferred_x;
            if let Some(idx) = next_search_result_idx(char_idx, self.query.as_str(), &self.rope, None) {
                self.update_cursor_from_char_idx(idx);
                self.cursor_pos.preferred_y = self.cursor_pos.y;
                self.cursor_pos.preferred_x = self.cursor_pos.x;
            }
        }
        self.cursor_pos.y = self.cursor_pos.preferred_y;
        self.cursor_pos.x = self.cursor_pos.preferred_x;
        self.return_to_normal_mode();
        self.scroll(self.cursor_pos.y);
        // replace all
        if starts_substitute(&self.command_bar) {
            let replacment = extract_replacment(self.command_bar.as_str());
            if self.query.as_str().is_empty() || replacment.as_str().is_empty() {
                return;
            }
            let char_idx = rope_line_to_char(&self.rope, self.cursor_pos.preferred_y) + self.cursor_pos.preferred_x;
            replace_matches(&mut self.rope, char_idx, self.query.as_str(), replacment.as_str());
        }
    }

    /// Enter in command or search mode (see `enter_effect`).
    fn enter_exec(&mut self) -> (r: Option<WriteRequest>)
        requires
            enter_ok(old(self)@),
        ensures
            (final(self)@, opt_write(r)) == enter_effect(old(self)@),
    {
        let bar = chars_of(self.command_bar.as_str());
        let first = token(&bar, 0);
        assert([':', 'q']@ =~= seq![':', 'q']);
        assert([':', 'w']@ =~= seq![':', 'w']);
        assert([':', 'w', 'q']@ =~= seq![':', 'w', 'q']);
        let (is_q, is_w, is_wq, arg) = match first {
            None => (false, false, false, None),
            Some((a, b)) => (
                chars_are(&bar, a, b, &[':', 'q']),
                chars_are(&bar, a, b, &[':', 'w']),
                chars_are(&bar, a, b, &[':', 'w', 'q']),
                token(&bar, b),
            ),
        };
        if is_q {
            self.exit();
            return None;
        }
        if is_w || is_wq {
            let quit = is_wq;
            match arg {
                Some((c, d)) => {
                    self.command_bar = String::new();
                    let path = string_of(&bar, c, d);
                    let rename = is_new_path(&self.path);
                    return Some(WriteRequest { path, rename, quit });
                },
                None => {
                    if is_new_path(&self.path) {
                        self.command_bar = String::from_str("error: no file name specified");
                    } else if !self.path.as_str().is_empty() {
                        self.command_bar = String::new();
                        return Some(WriteRequest { path: self.path.clone(), rename: false, quit });
                    } else {
                        self.command_bar = String::new();
                    }
                    if quit {
                        self.exit();
                        return None;
                    }
                    self.enter_rest_exec();
                    return None;
                },
            }
        }
        self.enter_rest_exec();
        None
    }

    /// Once a requested write is done: `message` goes to the command bar,
    /// the buffer takes `new_path` if given, and the editor quits or finishes
    /// the Enter.
    pub fn write_done(&mut self, message: String, new_path: Option<String>, quit: bool)
        requires
            !quit ==> enter_rest_ok(
                AppView {
                    command_bar: old(self)@.command_bar + message@,
                    path: match new_path {
                        Some(p) => p@,
                        None => old(self)@.path,
                    },
                    ..old(self)@
                },
            ),
        ensures
            final(self)@ == write_done_effect(
                old(self)@,
                message@,
                match new_path {
                    Some(p) => Some(p@),
                    None => None,
                },
                quit,
            ),
    {
        self.command_bar.append(message.as_str());
        if let Some(p) = new_path {
            self.path = p;
        }
        if quit {
            self.exit();
            return;
        }
        self.enter_rest_exec();
    }

    /// A key in command or search mode (see `command_key`).
    fn command_key_exec(&mut self, code: KeyCode) -> (r: Option<WriteRequest>)
        requires
            command_key_ok(old(self)@, code),
        ensures
            (final(self)@, opt_write(r)) == command_key(old(self)@, code),
    {
        match code {
            KeyCode::Enter => {
                return self.enter_exec();
            },
            KeyCode::Char(c) => {
                push_char(&mut self.command_bar, c);
            },
            KeyCode::Backspace => {
                pop_char(&mut self.command_bar);
                if self.command_bar.as_str().is_empty() {
                    self.cursor_pos.y = self.cursor_pos.preferred_y;
                    self.cursor_pos.x = self.cursor_pos.preferred_x;
                    self.return_to_normal_mode();
                }
            },
            _ => {},
        }
        self.after_edit_exec();
        None
    }

    /// A key: Esc back to normal mode from anywhere; in command and search
    /// mode the command bar; in insert mode the text; in the other modes the
    /// key parser and the command it completes. Returns the write that `:w`
    /// asks for, to be answered with `write_done`.
    pub fn handle_key_event(&mut self, key_event: KeyEvent) -> (r: Option<WriteRequest>)
        requires
            key_ok(old(self)@, key_event),
        ensures
            (final(self)@, opt_write(r)) == key_effect(old(self)@, key_event),
            is_escape(key_event) ==> escape_done(old(self)@, final(self)@) && r is None,
    {
        proof {
            if is_escape(key_event) {
                lemma_escape_to_normal(self@, key_event);
            }
        }
        // escape always return to normal from anywhere
        if key_event.code == KeyCode::Esc || (key_event.code == KeyCode::Char('[') && key_event.modifiers
            == CONTROL) {
            match self.mode {
                Mode::Insert => {
                    // if exiting insert mode, move cursor left 1
                    self.cursor_pos.x = if self.cursor_pos.x >= 1 {
                        self.cursor_pos.x - 1
                    } else {
                        0
                    };
                },
                Mode::Command | Mode::Search => {
                    // if exiting command mode put cursor back
                    self.cursor_pos.y = self.cursor_pos.preferred_y;
                    self.cursor_pos.x = self.cursor_pos.preferred_x;
                },
                _ => {},
            }
            self.return_to_normal_mode();
            return None;
        }
        match self.mode {
            Mode::Command | Mode::Search => self.command_key_exec(key_event.code),
            Mode::Insert => {
                self.insert_text(key_event);
                None
            },
            _ => {
                let visual_mode = match self.mode {
                    Mode::Visual => true,
                    Mode::VisualLine(_) => true,
                    Mode::VisualBlock => true,
                    _ => false,
                };
                if let Some(command) = self.parser.generate_command(key_event, visual_mode) {
                    self.execute_command(command, visual_mode, false);
                }
                None
            },
        }
    }
}

/// An editor with nothing loaded: an empty text, normal mode, the cursor at
/// the start, empty registers and stacks, and the parser of the key bindings.
pub open spec fn fresh(a: AppView) -> bool {
    &&& a.show_first_time_popup == false
    &&& a.lines_in_view == [0usize, 0usize]
    &&& a.last_command == no_command()
    &&& a.last_insertion == (0usize, Seq::<char>::empty())
    &&& !a.redraw
    &&& !a.dirty
    &&& a.mode == Mode::Normal
    &&& a.parser == empty_parser()
    &&& built_from(a.keys, key_bindings())
    &&& a.cursor == CursorPos { x: 0, y: 0, preferred_x: 0, preferred_y: 0 }
    &&& a.top_line == 0
    &&& a.main_height == 0
    &&& a.text.len() == 0
    &&& a.command_bar.len() == 0
    &&& a.path.len() == 0
    &&& a.selections.len() == 0
    &&& a.yank == Map::<u32, YankView>::empty()
    &&& !a.highlight_yank
    &&& a.query.len() == 0
    &&& a.block is None
    &&& a.bracket is None
    &&& a.undo.len() == 0
    &&& a.redo.len() == 0
}

impl Default for App {
    /// An editor with nothing loaded (see `fresh`).
    fn default() -> (a: Self)
        ensures
            fresh(a@),
    {
        broadcast use vstd::std_specs::hash::group_hash_axioms;

        let a = App {
            show_first_time_popup: false,
            lines_in_view: [0, 0],
            last_command: Command::default(),
            last_insertion: (0, String::new()),
            redraw: false,
            dirty: false,
            mode: Mode::default(),
            parser: Parser::default(),
            cursor_pos: CursorPos { x: 0, y: 0, preferred_x: 0, preferred_y: 0 },
            top_line: 0,
            main_height: 0,
            rope: rope_new(),
            command_bar: String::new(),
            path: String::new(),
            selections: Vec::new(),
            yank_buffer: HashMap::new(),
            highlight_yank: false,
            query: String::new(),
            visual_block_rng: None,
            matching_bracket_idx: None,
            undo_vec: Vec::new(),
            redo_vec: Vec::new(),
        };
        assert(a@.yank =~= Map::<u32, YankView>::empty());
        assert(a@.undo =~= Seq::<ActionView>::empty());
        assert(a@.redo =~= Seq::<ActionView>::empty());
        a
    }
}

/// The message shown once a file is loaded: its path in quotes, its number
/// of lines and its size.
pub open spec fn loaded_message(path: Seq<char>, lines: nat, bytes: nat) -> Seq<char> {
    seq!['"'] + path + seq!['"', ' '] + decimal(lines) + seq!['L', ',', ' '] + size_text(bytes)
}

impl App {
    /// Takes the text `rope` of the file at `path` (or of a new buffer, which
    /// shows the welcome popup): the command bar reports the file, and the
    /// unnamed register starts empty.
    pub fn start(&mut self, rope: Rope, path: String, new_buffer: bool)
        ensures
            ({
                let t = rope_text(rope);
                final(self)@ == AppView {
                    text: t,
                    path: path@,
                    show_first_time_popup: if new_buffer {
                        true
                    } else {
                        old(self)@.show_first_time_popup
                    },
                    command_bar: old(self)@.command_bar + loaded_message(
                        path@,
                        sat_sub(line_count(t) as int, 1) as nat,
                        encode_utf8(t).len(),
                    ),
                    yank: old(self)@.yank.insert(UNNAMED, YankView::Chars(Seq::empty())),
                    ..old(self)@
                }
            }),
    {
        broadcast use vstd::std_specs::hash::group_hash_axioms;

        let ghost a = self@;
        self.rope = rope;
        if new_buffer {
            self.show_first_time_popup = true;
        }
        let n = rope_len_lines(&self.rope);
        let size = format_file_size(rope_len_bytes(&self.rope));
        push_char(&mut self.command_bar, '"');
        self.command_bar.append(path.as_str());
        push_char(&mut self.command_bar, '"');
        push_char(&mut self.command_bar, ' ');
        push_decimal(&mut self.command_bar, if n >= 1 {
            (n - 1) as u128
        } else {
            0
        });
        push_char(&mut self.command_bar, 'L');
        push_char(&mut self.command_bar, ',');
        push_char(&mut self.command_bar, ' ');
        self.command_bar.append(size.as_str());
        self.path = path;
        self.yank_buffer.insert(UNNAMED, YankBuffer::Chars(String::new()));
        assert(self@.yank =~= a.yank.insert(UNNAMED, YankView::Chars(Seq::empty())));
        assert(self@.command_bar =~= a.command_bar + loaded_message(
            self@.path,
            sat_sub(line_count(self@.text) as int, 1) as nat,
            encode_utf8(self@.text).len(),
        ));
    }
}

/// The motions that only move over the text before the command's action.
pub open spec fn is_plain_motion(m: Option<Motion>) -> bool {
    !(m == Some(Motion::EnterSearchMode) || m == Some(Motion::EnterCommandMode) || m == Some(Motion::VisualMode)
        || m == Some(Motion::InsertMode) || m == Some(Motion::UpperInsert) || m == Some(Motion::Append) || m
        == Some(Motion::UpperAppend) || m == Some(Motion::NewLineBelow) || m == Some(Motion::NewLineAbove) || m
        == Some(Motion::UpperChange) || m == Some(Motion::Paste) || m == Some(Motion::UpperPaste) || m == Some(
        Motion::Repeat,
    ))
}

/// Escape, from any mode, brings the editor to normal mode with nothing
/// pending in the parser, leaves the text as it is and asks for no write;
/// leaving insert mode moves the cursor at least one column left (not past
/// the first) and puts the insertion on the undo stack.
pub proof fn lemma_escape_to_normal(a: AppView, k: KeyEvent)
    requires
        is_escape(k),
    ensures
        escape_done(a, key_effect(a, k).0),
        key_effect(a, k).1 is None,
{
}

/// The unnamed register holds `c`, as chars or as lines.
pub open spec fn unnamed_holds(a: AppView, c: Seq<char>) -> bool {
    &&& a.yank.contains_key(UNNAMED)
    &&& (a.yank[UNNAMED] == YankView::Chars(c) || a.yank[UNNAMED] == YankView::Lines(c))
}

/// After a delete or change from `a` to `b`: the redo stack is as it was, and
/// either the text and the undo stack are as they were, or one deletion was
/// pushed on the undo stack whose content the unnamed register holds and
/// whose undoing gives back the text of `a`.
pub open spec fn delete_recorded(a: AppView, b: AppView) -> bool {
    &&& b.redo == a.redo
    &&& {
        ||| b.text == a.text && b.undo == a.undo
        ||| {
            &&& b.undo.len() == a.undo.len() + 1
            &&& b.undo.drop_last() == a.undo
            &&& b.undo.last() is Delete
            &&& unnamed_holds(b, b.undo.last()->Delete_content)
            &&& b.undo.last().undone_text(b.text) == a.text
        }
    }
}

/// After a yank from `a` to `b`: the text and the undo and redo stacks are as
/// they were, and the editor is in normal mode.
pub open spec fn yank_kept(a: AppView, b: AppView) -> bool {
    &&& b.text == a.text
    &&& b.undo == a.undo
    &&& b.redo == a.redo
    &&& b.mode == Mode::Normal
}

/// What Escape leaves from `a`: normal mode, nothing pending in the parser,
/// the same text; out of insert mode, the cursor at least one column further
/// left (not past the first) and the insertion on the undo stack.
pub open spec fn escape_done(a: AppView, b: AppView) -> bool {
    &&& b.mode == Mode::Normal
    &&& b.parser == empty_parser()
    &&& b.text == a.text
    &&& a.mode == Mode::Insert ==> {
        &&& b.cursor.x <= sat_sub(a.cursor.x as int, 1)
        &&& b.undo == a.undo.push(ActionView::Insert { idx: a.last_insertion.0, content: a.last_insertion.1 })
    }
}

/// A yank command in normal mode, with a motion that moves over the text,
/// leaves the text, the undo and redo stacks and normal mode as they are.
pub proof fn lemma_yank_keeps_text(a: AppView, cmd: CommandView)
    requires
        a.mode == Mode::Normal,
        cmd.action == Some(Action::Yank),
        is_plain_motion(cmd.motion),
    ensures
        yank_kept(a, command_effect(a, cmd, false, false)),
{
    let a0 = parser_reset(a);
    let n = count_of(cmd.count);
    let s = step_effect(a0, cmd, n, false);
    lemma_plain_step(a0, cmd, n);
    if let Some(p) = s.1 {
        let b0 = s.0;
        let a1 = selections_after(b0, p);
        let r = command_range(a1, cmd, p, false);
        let a2 = yanked(a1, cmd, r);
        let a3 = acted(a2, cmd, r, false);
        lemma_finished_from_keeps(a3, cmd, p, false, false, r);
    }
}

/// A delete or change command in normal mode, with a motion that moves over
/// the text, either leaves the text and the undo stack alone, or puts on the
/// undo stack one deletion whose content the unnamed register now holds and
/// whose undoing gives back the text from before the command.
#[verifier::rlimit(50)]
pub proof fn lemma_delete_undone(a: AppView, cmd: CommandView)
    requires
        a.mode == Mode::Normal,
        cmd.action == Some(Action::Delete) || cmd.action == Some(Action::Change),
        is_plain_motion(cmd.motion),
        command_ok(a, cmd, false, false),
    ensures
        delete_recorded(a, command_effect(a, cmd, false, false)),
        ({
            let b = command_effect(a, cmd, false, false);
            b.text != a.text ==> {
                &&& b.undo.len() == a.undo.len() + 1
                &&& b.undo.last().undone_text(b.text) == a.text
            }
        }),
{
    let a0 = parser_reset(a);
    let n = count_of(cmd.count);
    let s = step_effect(a0, cmd, n, false);
    lemma_plain_step(a0, cmd, n);
    if let Some(p) = s.1 {
        let b0 = s.0;
        let a1 = selections_after(b0, p);
        let r = command_range(a1, cmd, p, false);
        let a2 = yanked(a1, cmd, r);
        let a3 = acted(a2, cmd, r, false);
        assert(action_ok(b0, cmd, p, false));
        crate::text::lemma_chars_le_bytes(b0.text);
        lemma_delete_acted(a2, cmd, r);
        lemma_finished_from_keeps(a3, cmd, p, false, false, r);
        assert(a2.text == a1.text);
        assert(a3.undo.last() == ActionView::Delete { idx: r.0 as usize, content: a1.text.subrange(r.0, r.1) });
        assert(a3.undo.drop_last() == a.undo);
        assert(a3.yank == a2.yank);
    }
}

/// A plain motion leaves the text, the mode and the undo stack alone.
proof fn lemma_plain_step(a: AppView, cmd: CommandView, n: nat)
    requires
        is_plain_motion(cmd.motion),
    ensures
        step_effect(a, cmd, n, false).0.text == a.text,
        step_effect(a, cmd, n, false).0.mode == a.mode,
        step_effect(a, cmd, n, false).0.undo == a.undo,
        step_effect(a, cmd, n, false).0.redo == a.redo,
{
}

/// Deleting the range `r` pushes one edit whose undoing gives the text back.
proof fn lemma_delete_acted(a: AppView, cmd: CommandView, r: (int, int))
    requires
        a.mode == Mode::Normal,
        cmd.action == Some(Action::Delete) || cmd.action == Some(Action::Change),
        0 <= r.0 <= r.1 <= a.text.len(),
        r.1 <= usize::MAX,
    ensures
        acted(a, cmd, r, false).undo.len() == a.undo.len() + 1,
        acted(a, cmd, r, false).undo.last().undone_text(acted(a, cmd, r, false).text) == a.text,
{
    let t = a.text;
    assert(t.take(r.0) + t.subrange(r.0, r.1) + t.skip(r.1) =~= t);
    assert(removed(t, r.0, r.1).take(r.0) =~= t.take(r.0));
    assert(removed(t, r.0, r.1).skip(r.0) =~= t.skip(r.1));
}

/// The last steps of a command change neither the text nor the undo stack.
proof fn lemma_finished_from_keeps(a3: AppView, cmd: CommandView, p: Plan, visual: bool, repeat: bool, r: (int, int))
    ensures
        finished_from(a3, cmd, p, visual, repeat, r).text == a3.text,
        finished_from(a3, cmd, p, visual, repeat, r).undo == a3.undo,
        finished_from(a3, cmd, p, visual, repeat, r).redo == a3.redo,
        finished_from(a3, cmd, p, visual, repeat, r).mode == a3.mode,
        finished_from(a3, cmd, p, visual, repeat, r).yank == a3.yank,
{
}

} // verus!
