use char_editor::ranges::{
    cursor_down_idx, cursor_left_idx, cursor_right_idx, cursor_up_idx, file_end_idx, find_char_inline,
    find_matching_bracket, first_word_idx, inside_brackets, inside_quotes, inside_upper_word, inside_word,
    is_empty_line, is_end_of_line, line_end_idx, line_start_idx, matching_bracket_idx, new_line_above_idx,
    new_line_below_idx, next_empty_line_idx, next_search_result_idx, next_word_idx, prev_empty_line_idx,
    prev_search_result_idx, prev_word_idx, upper_back_word_idx, upper_word_end_idx, upper_word_idx,
    word_end_idx,
};
use char_editor::types::CursorPos;
use ropey::Rope;

// line 0: "hello world\n"  chars 0..=11
// line 1: "foo_bar baz\n"  chars 12..=23
// line 2: "\n"             char 24
// line 3: "last line\n"    chars 25..=34
// line 4: ""               starts at 35
const TEXT: &str = "hello world\nfoo_bar baz\n\nlast line\n";

fn pos(x: usize, y: usize) -> CursorPos {
    CursorPos { x, y, preferred_x: x, preferred_y: y }
}

#[test]
fn end_of_line_and_empty_line() {
    let r = Rope::from_str(TEXT);
    assert!(is_end_of_line(11, &r));
    assert!(!is_end_of_line(0, &r));
    assert!(is_end_of_line(35, &r));
    assert!(is_end_of_line(500, &r));
    assert!(is_empty_line(&r.line(2)));
    assert!(!is_empty_line(&r.line(0)));
    assert!(!is_empty_line(&r.line(4)));
}

#[test]
fn cursor_moves_left_and_right() {
    let r = Rope::from_str(TEXT);
    assert_eq!(cursor_left_idx(&pos(3, 1), 5, &r), 12);
    assert_eq!(cursor_left_idx(&pos(3, 1), 1, &r), 14);
    assert_eq!(cursor_right_idx(&pos(3, 0), 100, &r), 11);
    assert_eq!(cursor_right_idx(&pos(3, 0), 2, &r), 5);
}

#[test]
fn cursor_moves_up_and_down() {
    let r = Rope::from_str(TEXT);
    assert_eq!(cursor_up_idx(&pos(8, 3), 1, &r), 24);
    assert_eq!(cursor_up_idx(&pos(4, 3), 10, &r), 4);
    assert_eq!(cursor_down_idx(&pos(9, 0), 1, &r), 21);
    assert_eq!(cursor_down_idx(&pos(2, 2), 10, &r), 27);
}

#[test]
fn first_word_skips_indent() {
    let r = Rope::from_str("  \tindented\nx\n");
    assert_eq!(first_word_idx(&pos(0, 0), &r), 3);
    assert_eq!(first_word_idx(&pos(0, 1), &r), 12);
    let blank = Rope::from_str("   \nx");
    assert_eq!(first_word_idx(&pos(0, 0), &blank), 3);
}

#[test]
fn line_bounds() {
    let r = Rope::from_str(TEXT);
    assert_eq!(line_start_idx(3, &r), 25);
    assert_eq!(line_end_idx(13, &r), 23);
    assert_eq!(line_end_idx(35, &r), 35);
    assert_eq!(file_end_idx(&r), 33);
    assert_eq!(file_end_idx(&Rope::from_str("a")), 0);
}

#[test]
fn word_motions_forward() {
    let r = Rope::from_str(TEXT);
    assert_eq!(next_word_idx(0, &r, false), 6);
    assert_eq!(next_word_idx(6, &r, false), 12);
    assert_eq!(next_word_idx(20, &r, false), 24);
    assert_eq!(next_word_idx(6, &r, true), 11);
    assert_eq!(next_word_idx(40, &r, false), 40);
    let p = Rope::from_str("foo_bar.baz\n");
    assert_eq!(next_word_idx(0, &p, false), 7);
    assert_eq!(upper_word_idx(0, &p, false), 12);
    assert_eq!(upper_word_idx(12, &r, false), 20);
}

#[test]
fn word_objects() {
    let r = Rope::from_str(TEXT);
    assert_eq!(inside_word(14, &r), (12, 19));
    assert_eq!(inside_word(5, &r), (5, 6));
    let p = Rope::from_str("a.b_c d\n");
    assert_eq!(inside_word(3, &p), (2, 5));
    assert_eq!(inside_upper_word(3, &p), (0, 5));
}

#[test]
fn word_ends() {
    let r = Rope::from_str(TEXT);
    assert_eq!(word_end_idx(0, &r), 4);
    assert_eq!(word_end_idx(4, &r), 10);
    assert_eq!(upper_word_end_idx(12, &r), 18);
    assert_eq!(word_end_idx(34, &r), 34);
}

#[test]
fn word_motions_backward() {
    let r = Rope::from_str(TEXT);
    assert_eq!(prev_word_idx(6, &r), 0);
    assert_eq!(prev_word_idx(12, &r), 6);
    assert_eq!(prev_word_idx(25, &r), 24);
    assert_eq!(prev_word_idx(0, &r), 0);
    assert_eq!(upper_back_word_idx(20, &r), 12);
}

#[test]
fn paragraph_motions() {
    let r = Rope::from_str(TEXT);
    assert_eq!(next_empty_line_idx(0, &r), 24);
    assert_eq!(next_empty_line_idx(25, &r), 35);
    assert_eq!(prev_empty_line_idx(30, &r), 24);
    assert_eq!(prev_empty_line_idx(12, &r), 0);
}

#[test]
fn new_lines_keep_indent() {
    let r = Rope::from_str(TEXT);
    assert_eq!(new_line_below_idx(&pos(0, 0), &r), (11, String::new()));
    assert_eq!(new_line_above_idx(&pos(0, 1), &r), (12, String::new()));
    let ind = Rope::from_str("  ab\ncd");
    assert_eq!(new_line_below_idx(&pos(0, 0), &ind), (4, "  ".to_string()));
    assert_eq!(new_line_above_idx(&pos(0, 0), &ind), (0, "  ".to_string()));
    assert_eq!(new_line_below_idx(&pos(0, 1), &ind), (7, String::new()));
}

#[test]
fn find_char_on_line() {
    let r = Rope::from_str(TEXT);
    assert_eq!(find_char_inline(&pos(0, 0), &r, 'o', true, true), Some(4));
    assert_eq!(find_char_inline(&pos(0, 0), &r, 'o', true, false), Some(3));
    assert_eq!(find_char_inline(&pos(10, 0), &r, 'o', false, true), Some(7));
    assert_eq!(find_char_inline(&pos(10, 0), &r, 'o', false, false), Some(8));
    assert_eq!(find_char_inline(&pos(0, 0), &r, 'z', true, true), None);
}

#[test]
fn quotes_on_line() {
    let r = Rope::from_str("say \"hi\" and \"yo\"\n");
    assert_eq!(inside_quotes(0, 0, &r, '"'), Some((5, 7)));
    assert_eq!(inside_quotes(5, 0, &r, '"'), Some((5, 7)));
    assert_eq!(inside_quotes(10, 0, &r, '"'), Some((14, 16)));
    assert_eq!(inside_quotes(17, 0, &r, '"'), None);
    assert_eq!(inside_quotes(0, 0, &r, '\''), None);
}

#[test]
fn brackets_around_cursor() {
    let r = Rope::from_str("f(a, (b))\n");
    assert_eq!(inside_brackets(1, &r, '(', ')'), Some((2, 8)));
    assert_eq!(inside_brackets(6, &r, '(', ')'), Some((6, 7)));
    assert_eq!(inside_brackets(0, &r, '(', ')'), Some((2, 8)));
    assert_eq!(inside_brackets(8, &r, '(', ')'), Some((2, 8)));
    assert_eq!(inside_brackets(3, &r, '[', ']'), None);
    assert_eq!(inside_brackets(50, &r, '(', ')'), None);
}

#[test]
fn matching_brackets() {
    let r = Rope::from_str("f(a, [b])\n");
    assert_eq!(find_matching_bracket(1, &r), Some(8));
    assert_eq!(find_matching_bracket(8, &r), Some(1));
    assert_eq!(find_matching_bracket(5, &r), Some(7));
    assert_eq!(find_matching_bracket(0, &r), None);
    assert_eq!(matching_bracket_idx(&pos(2, 0), 2, &r), Some(1));
    assert_eq!(matching_bracket_idx(&pos(1, 0), 1, &r), Some(8));
    let s = Rope::from_str("ab (c)\n");
    assert_eq!(matching_bracket_idx(&pos(0, 0), 0, &s), Some(5));
}

#[test]
fn search_forward_wraps() {
    let r = Rope::from_str(TEXT);
    assert_eq!(next_search_result_idx(0, "foo", &r, None), Some(12));
    assert_eq!(next_search_result_idx(12, "ba", &r, None), Some(16));
    assert_eq!(next_search_result_idx(30, "hello", &r, None), Some(0));
    assert_eq!(next_search_result_idx(0, "nothing", &r, None), None);
}

#[test]
fn search_backward_wraps() {
    let r = Rope::from_str(TEXT);
    assert_eq!(prev_search_result_idx(30, "foo", &r), Some(12));
    assert_eq!(prev_search_result_idx(30, "la", &r), Some(25));
    assert_eq!(prev_search_result_idx(16, "line", &r), Some(30));
}

#[test]
fn lines_break_where_ropey_breaks_them() {
    let r = Rope::from_str("ab\r\ncd\u{2028}ef");
    assert_eq!(line_start_idx(1, &r), 4);
    assert_eq!(line_start_idx(2, &r), 7);
    assert_eq!(cursor_down_idx(&pos(1, 0), 1, &r), 5);
    assert_eq!(new_line_below_idx(&pos(0, 0), &r), (3, String::new()));
}

#[test]
fn bracket_matching_reaches_the_last_char() {
    let r = Rope::from_str("()");
    assert_eq!(find_matching_bracket(0, &r), Some(1));
    assert_eq!(find_matching_bracket(1, &r), Some(0));
    let s = Rope::from_str("x{a<b>}");
    assert_eq!(find_matching_bracket(1, &s), Some(6));
    assert_eq!(find_matching_bracket(6, &s), Some(1));
    assert_eq!(find_matching_bracket(3, &s), Some(5));
    assert_eq!(find_matching_bracket(5, &s), Some(3));
    assert_eq!(find_matching_bracket(0, &Rope::from_str("(")), None);
}

#[test]
fn bracket_matches_are_symmetric() {
    let r = Rope::from_str("f([a]{(b)<c>}) ) (\n");
    for i in 0..r.len_chars() {
        if let Some(j) = find_matching_bracket(i, &r) {
            assert_eq!(find_matching_bracket(j, &r), Some(i), "from {}", i);
        }
    }
}

#[test]
fn search_result_is_a_match() {
    let r = Rope::from_str("xaba\nab\n");
    for ci in 0..r.len_chars() {
        if let Some(i) = next_search_result_idx(ci, "ab", &r, None) {
            assert_eq!(r.slice(i..i + 2).to_string(), "ab");
        }
    }
}
