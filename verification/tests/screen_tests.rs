use char_editor::editor::App;
use char_editor::screen::{gutter_width, line_number};
use char_editor::types::{Mode, VisualBlockRng, VisualSelection};
use ropey::Rope;

fn app_with(text: &str) -> App {
    let mut a = App::default();
    a.start(Rope::from_str(text), "f.txt".to_string(), false);
    a.main_height = 30;
    a
}

#[test]
fn line_numbers_are_relative_except_on_the_cursor_line() {
    assert_eq!(line_number(4, 4, Mode::Normal), "5 ");
    assert_eq!(line_number(7, 4, Mode::Normal), "3");
    assert_eq!(line_number(1, 4, Mode::Insert), "3");
    assert_eq!(line_number(7, 4, Mode::Command), "8 ");
    assert_eq!(line_number(0, 9, Mode::Search), "1 ");
}

#[test]
fn gutter_is_one_wider_than_the_line_count() {
    assert_eq!(gutter_width(0), 1);
    assert_eq!(gutter_width(1), 2);
    assert_eq!(gutter_width(9), 2);
    assert_eq!(gutter_width(10), 3);
    assert_eq!(gutter_width(12345), 6);
    assert_eq!(gutter_width(usize::MAX), usize::MAX.to_string().len() as u32 + 1);
}

#[test]
fn frame_takes_the_height_and_lines_in_view() {
    let mut a = app_with("a\nb\nc\n");
    let f = a.begin_frame(2);
    assert_eq!(a.main_height, 2);
    assert_eq!(a.lines_in_view, [0, 2]);
    assert_eq!((f.first_line, f.end_line), (0, 2));
    assert!(!f.highlight_text);
    let f = a.begin_frame(50);
    assert_eq!(f.end_line, 4);
}

#[test]
fn yank_flash_lasts_one_frame() {
    let mut a = app_with("a\n");
    a.highlight_yank = true;
    let f = a.begin_frame(10);
    assert!(f.highlight_text);
    assert!(a.redraw);
    a.end_frame();
    assert!(!a.highlight_yank);
}

#[test]
fn visual_block_follows_the_cursor() {
    let mut a = app_with("abcd\nefgh\n");
    a.mode = Mode::VisualBlock;
    a.visual_block_rng = Some(VisualBlockRng { x_rng: [3, 3], y_rng: [1, 1] });
    a.cursor_pos.x = 1;
    a.cursor_pos.y = 0;
    let f = a.begin_frame(10);
    let b = f.block.unwrap();
    assert_eq!((b.x_rng, b.y_rng), ([1, 3], [0, 1]));
    let r = a.visual_block_rng.unwrap();
    assert_eq!((r.x_rng, r.y_rng), ([3, 1], [1, 0]));
}

#[test]
fn selections_split_a_line_into_runs() {
    let mut a = app_with("hello world\nnext\n");
    a.selections.push(VisualSelection { ancor: 8, cursor: 6 });
    a.matching_bracket_idx = Some(1);
    let rs = a.line_selections(0, true);
    assert_eq!(rs, vec![(1, 1), (6, 8)]);
    let runs = a.line_runs(0, &rs, None);
    let expect: Vec<(String, bool)> = vec![
        ("h".to_string(), false),
        ("e".to_string(), true),
        ("llo ".to_string(), false),
        ("wor".to_string(), true),
        ("ld\n".to_string(), false),
    ];
    assert_eq!(runs, expect);
    assert_eq!(a.line_selections(1, true), vec![]);
    assert_eq!(a.line_selections(0, false), vec![(1, 1)]);
}

#[test]
fn a_lit_empty_line_shows_a_space() {
    let mut a = app_with("a\n\nb\n");
    a.selections.push(VisualSelection { ancor: 0, cursor: 3 });
    let rs = a.line_selections(1, true);
    let runs = a.line_runs(1, &rs, None);
    assert_eq!(runs, vec![(" ".to_string(), true)]);
}

#[test]
fn status_texts() {
    let mut a = app_with("a\nb\n");
    assert_eq!(a.path_text(), "f.txt");
    a.dirty = true;
    assert_eq!(a.path_text(), "f.txt [+]");
    a.cursor_pos.x = 0;
    a.cursor_pos.y = 1;
    assert_eq!(a.location_text(), "2,1    Top");
    assert_eq!(a.cursor_on_screen(4), (4, 1));
    a.top_line = 1;
    assert_eq!(a.cursor_on_screen(4), (4, 0));
}
