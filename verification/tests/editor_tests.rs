use char_editor::commands::{Action as CommandAction, Motion};
use char_editor::editor::{App, UNNAMED};
use char_editor::keys::{KeyCode, KeyEvent, CONTROL, NONE, SHIFT};
use char_editor::types::{Mode, YankBuffer};
use char_editor::undo::Action;
use ropey::Rope;

fn app_with(text: &str) -> App {
    let mut a = App::default();
    a.start(Rope::from_str(text), "f.txt".to_string(), false);
    a.main_height = 30;
    a
}

fn key(c: char) -> KeyEvent {
    if c.is_ascii_uppercase() {
        KeyEvent::new(KeyCode::Char(c), SHIFT)
    } else {
        KeyEvent::new(KeyCode::Char(c), NONE)
    }
}

fn typed(a: &mut App, s: &str) {
    for c in s.chars() {
        let r = a.handle_key_event(key(c));
        assert!(r.is_none());
    }
}

fn esc(a: &mut App) {
    a.handle_key_event(KeyEvent::new(KeyCode::Esc, NONE));
}

fn enter(a: &mut App) -> Option<char_editor::editor::WriteRequest> {
    a.handle_key_event(KeyEvent::new(KeyCode::Enter, NONE))
}

fn yanked(a: &App) -> Option<(bool, String)> {
    match a.yank_buffer.get(&UNNAMED) {
        Some(YankBuffer::Chars(s)) => Some((false, s.clone())),
        Some(YankBuffer::Lines(s)) => Some((true, s.clone())),
        _ => None,
    }
}

#[test]
fn start_reports_the_file() {
    let a = app_with("hello world\n");
    assert_eq!(a.command_bar, "\"f.txt\" 1L, 12 B");
    assert_eq!(yanked(&a), Some((false, String::new())));
    assert_eq!(a.mode, Mode::Normal);
    assert!(!a.show_first_time_popup);
    let mut b = App::default();
    b.start(Rope::from_str("\n"), "[new]".to_string(), true);
    assert!(b.show_first_time_popup);
    assert_eq!(b.command_bar, "\"[new]\" 1L, 1 B");
}

#[test]
fn x_deletes_the_char_under_the_cursor() {
    let mut a = app_with("hello\n");
    typed(&mut a, "x");
    assert_eq!(a.rope.to_string(), "ello\n");
    assert_eq!(yanked(&a), Some((false, "h".to_string())));
    assert_eq!(a.undo_vec.len(), 1);
    assert_eq!((a.cursor_pos.x, a.cursor_pos.y), (0, 0));
    assert_eq!(a.mode, Mode::Normal);
}

#[test]
fn dw_deletes_a_word_and_can_be_undone() {
    let mut a = app_with("hello world\n");
    typed(&mut a, "dw");
    assert_eq!(a.rope.to_string(), "world\n");
    assert_eq!(yanked(&a), Some((false, "hello ".to_string())));
    match a.undo_vec.last() {
        Some(Action::Delete { idx, content }) => {
            assert_eq!(*idx, 0);
            assert_eq!(content, "hello ");
        },
        _ => panic!("expected a deletion on the undo stack"),
    }
    let last = a.undo_vec.pop().unwrap();
    last.undo(&mut a.rope);
    assert_eq!(a.rope.to_string(), "hello world\n");
}

#[test]
fn counted_delete_takes_several_words() {
    let mut a = app_with("one two three four\n");
    typed(&mut a, "2dw");
    assert_eq!(a.rope.to_string(), "three four\n");
}

#[test]
fn upper_d_deletes_to_the_line_end() {
    let mut a = app_with("hello world\n");
    a.cursor_pos.x = 6;
    typed(&mut a, "D");
    assert_eq!(a.rope.to_string(), "hello \n");
    assert_eq!(yanked(&a), Some((false, "world".to_string())));
    assert_eq!(a.cursor_pos.x, 5);
}

#[test]
fn dd_deletes_the_line() {
    let mut a = app_with("one\ntwo\nthree\n");
    a.cursor_pos.y = 1;
    typed(&mut a, "dd");
    assert_eq!(a.rope.to_string(), "one\nthree\n");
    assert_eq!(yanked(&a), Some((true, "two\n".to_string())));
    assert_eq!(a.last_command.motion, Some(Motion::DeleteLine));
    assert_eq!(a.last_command.action, Some(CommandAction::Delete));
}

#[test]
fn yank_line_and_paste_below() {
    let mut a = app_with("one\ntwo\n");
    typed(&mut a, "yy");
    assert_eq!(yanked(&a), Some((true, "one\n".to_string())));
    assert!(a.highlight_yank);
    assert_eq!(a.rope.to_string(), "one\ntwo\n");
    typed(&mut a, "p");
    assert_eq!(a.rope.to_string(), "one\none\ntwo\n");
    assert_eq!((a.cursor_pos.x, a.cursor_pos.y), (2, 1));
}

#[test]
fn insert_then_escape_records_the_insertion() {
    let mut a = app_with("hello\n");
    typed(&mut a, "i");
    assert_eq!(a.mode, Mode::Insert);
    assert_eq!(a.command_bar, "-- INSERT --");
    typed(&mut a, "ab");
    assert_eq!(a.rope.to_string(), "abhello\n");
    assert_eq!(a.cursor_pos.x, 2);
    esc(&mut a);
    assert_eq!(a.mode, Mode::Normal);
    assert_eq!(a.cursor_pos.x, 1);
    assert_eq!(a.command_bar, "");
    match a.undo_vec.last() {
        Some(Action::Insert { idx, content }) => {
            assert_eq!(*idx, 0);
            assert_eq!(content, "ab");
        },
        _ => panic!("expected an insertion on the undo stack"),
    }
    let last = a.undo_vec.pop().unwrap();
    last.undo(&mut a.rope);
    assert_eq!(a.rope.to_string(), "hello\n");
}

#[test]
fn opening_bracket_is_closed_in_insert_mode() {
    let mut a = app_with("x\n");
    typed(&mut a, "i(");
    assert_eq!(a.rope.to_string(), "()x\n");
    assert_eq!(a.cursor_pos.x, 1);
    typed(&mut a, ")");
    assert_eq!(a.rope.to_string(), "()x\n");
    assert_eq!(a.cursor_pos.x, 2);
}

#[test]
fn o_opens_a_line_below() {
    let mut a = app_with("hello\n");
    typed(&mut a, "o");
    assert_eq!(a.rope.to_string(), "hello\n\n");
    assert_eq!(a.mode, Mode::Insert);
    assert_eq!((a.cursor_pos.x, a.cursor_pos.y), (0, 1));
    assert_eq!(a.last_insertion.1, "\n");
}

#[test]
fn escape_returns_to_normal_mode_from_anywhere() {
    let mut a = app_with("hello\n");
    typed(&mut a, ":ab");
    assert_eq!(a.mode, Mode::Command);
    esc(&mut a);
    assert_eq!(a.mode, Mode::Normal);
    assert_eq!(a.rope.to_string(), "hello\n");
    typed(&mut a, "v");
    assert_eq!(a.mode, Mode::Visual);
    a.handle_key_event(KeyEvent::new(KeyCode::Char('['), CONTROL));
    assert_eq!(a.mode, Mode::Normal);
    typed(&mut a, "3d");
    esc(&mut a);
    assert!(a.parser.command.is_none());
    assert!(a.parser.motion_buffer.is_empty());
    assert_eq!(a.parser.input_buffer, "");
}

#[test]
fn colon_q_quits() {
    let mut a = app_with("hello\n");
    typed(&mut a, ":q");
    assert!(enter(&mut a).is_none());
    assert_eq!(a.mode, Mode::Exit);
}

#[test]
fn colon_w_asks_for_a_write() {
    let mut a = app_with("hello\n");
    typed(&mut a, ":w out.txt");
    let req = enter(&mut a).expect("a write request");
    assert_eq!(req.path, "out.txt");
    assert!(!req.rename);
    assert!(!req.quit);
    assert_eq!(a.command_bar, "");
    a.write_done("written".to_string(), None, false);
    assert_eq!(a.command_bar, "written");
    assert_eq!(a.mode, Mode::Normal);
    assert_eq!(a.path, "f.txt");
}

#[test]
fn colon_w_on_a_new_buffer_renames_it() {
    let mut a = App::default();
    a.start(Rope::from_str("\n"), "[new]".to_string(), true);
    a.main_height = 30;
    typed(&mut a, ":w");
    assert!(enter(&mut a).is_none());
    assert_eq!(a.command_bar, "error: no file name specified");
    typed(&mut a, ":wq name.txt");
    let req = enter(&mut a).expect("a write request");
    assert_eq!(req.path, "name.txt");
    assert!(req.rename);
    assert!(req.quit);
    a.write_done("ok".to_string(), Some(req.path.clone()), req.quit);
    assert_eq!(a.path, "name.txt");
    assert_eq!(a.mode, Mode::Exit);
}

#[test]
fn search_moves_to_the_next_match() {
    let mut a = app_with("hello world\nfoo\n");
    typed(&mut a, "/wo");
    assert_eq!(a.mode, Mode::Search);
    assert_eq!(a.selections.len(), 1);
    assert_eq!((a.selections[0].ancor, a.selections[0].cursor), (6, 7));
    assert!(enter(&mut a).is_none());
    assert_eq!(a.mode, Mode::Normal);
    assert_eq!(a.query, "wo");
    assert_eq!((a.cursor_pos.x, a.cursor_pos.y), (6, 0));
    typed(&mut a, "G");
    assert_eq!(a.cursor_pos.y, 1);
    typed(&mut a, "n");
    assert_eq!((a.cursor_pos.x, a.cursor_pos.y), (6, 0));
}

#[test]
fn substitute_replaces_every_match() {
    let mut a = app_with("foo\nbar\n");
    typed(&mut a, ":%s/o/0/");
    assert_eq!(a.mode, Mode::Search);
    assert!(enter(&mut a).is_none());
    assert_eq!(a.rope.to_string(), "f00\nbar\n");
    assert_eq!(a.mode, Mode::Normal);
}

#[test]
fn motions_move_the_cursor() {
    let mut a = app_with("hello world\nfoo bar\n\nlast\n");
    typed(&mut a, "w");
    assert_eq!((a.cursor_pos.x, a.cursor_pos.y), (6, 0));
    typed(&mut a, "j");
    assert_eq!((a.cursor_pos.x, a.cursor_pos.y), (6, 1));
    typed(&mut a, "$");
    assert_eq!((a.cursor_pos.x, a.cursor_pos.y), (6, 1));
    typed(&mut a, "0");
    assert_eq!((a.cursor_pos.x, a.cursor_pos.y), (0, 1));
    typed(&mut a, "}");
    assert_eq!(a.cursor_pos.y, 2);
    typed(&mut a, "gg");
    assert_eq!((a.cursor_pos.x, a.cursor_pos.y), (0, 0));
    typed(&mut a, "e");
    assert_eq!((a.cursor_pos.x, a.cursor_pos.y), (4, 0));
    typed(&mut a, "b");
    assert_eq!((a.cursor_pos.x, a.cursor_pos.y), (0, 0));
}

#[test]
fn file_position_is_top_for_short_files() {
    let a = app_with("a\nb\n");
    assert_eq!(a.file_position(), "Top");
}

#[test]
fn char_index_and_cursor_agree() {
    let mut a = app_with("ab\ncd\n");
    a.update_cursor_from_char_idx(4);
    assert_eq!((a.cursor_pos.x, a.cursor_pos.y), (1, 1));
    assert_eq!(a.get_char_idx(), 4);
    a.update_cursor_from_char_idx(100);
    assert_eq!((a.cursor_pos.x, a.cursor_pos.y), (2, 1));
    a.ensure_valid_normal_pos();
    assert_eq!(a.cursor_pos.x, 1);
}

#[test]
fn scroll_keeps_the_cursor_in_view() {
    let mut a = app_with("x\n");
    a.main_height = 40;
    a.scroll(50);
    assert_eq!(a.top_line, 21);
    a.scroll(35);
    assert_eq!(a.top_line, 21);
    a.scroll(25);
    assert_eq!(a.top_line, 15);
}

#[test]
fn yank_leaves_text_and_history_alone() {
    let mut a = app_with("hello world\n");
    typed(&mut a, "x");
    let undo_len = a.undo_vec.len();
    typed(&mut a, "yw");
    assert_eq!(a.rope.to_string(), "ello world\n");
    assert_eq!(a.undo_vec.len(), undo_len);
    assert!(a.redo_vec.is_empty());
    assert_eq!(a.mode, Mode::Normal);
    assert_eq!(yanked(&a), Some((false, "ello ".to_string())));
}

#[test]
fn delete_record_matches_the_register() {
    let mut a = app_with("one\ntwo\nthree\n");
    typed(&mut a, "dd");
    match a.undo_vec.last() {
        Some(Action::Delete { idx, content }) => {
            assert_eq!(*idx, 0);
            assert_eq!(yanked(&a), Some((true, content.clone())));
        },
        _ => panic!("expected a deletion on the undo stack"),
    }
}

#[test]
fn escape_from_insert_records_the_insertion() {
    let mut a = app_with("hello\n");
    typed(&mut a, "A");
    assert_eq!(a.mode, Mode::Insert);
    let before = a.undo_vec.len();
    let x = a.cursor_pos.x;
    esc(&mut a);
    assert_eq!(a.undo_vec.len(), before + 1);
    assert!(a.cursor_pos.x <= x.saturating_sub(1));
}
