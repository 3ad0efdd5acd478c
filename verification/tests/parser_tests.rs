use char_editor::commands::{Action, Command, Motion, Parser};
use char_editor::keys::{KeyCode, KeyEvent, KeyEventKind, CONTROL, NONE, SHIFT};
use char_editor::trie::TrieNode;

fn key(c: char) -> KeyEvent {
    KeyEvent::new(KeyCode::Char(c), NONE)
}

fn feed(p: &mut Parser, s: &str) -> Vec<Option<Command>> {
    s.chars().map(|c| p.generate_command(key(c), false)).collect()
}

fn last(p: &mut Parser, s: &str) -> Option<(Option<Motion>, Option<Action>, String)> {
    let out = feed(p, s);
    for r in &out[..out.len() - 1] {
        assert!(r.is_none());
    }
    out.into_iter().last().unwrap().map(|c| (c.motion, c.action, c.count))
}

#[test]
fn single_keys_are_motions() {
    let mut p = Parser::default();
    assert_eq!(last(&mut p, "j"), Some((Some(Motion::Down), None, String::new())));
}

#[test]
fn every_single_key_binding() {
    let table: [(char, Motion, Option<Action>); 36] = [
        ('j', Motion::Down, None),
        ('k', Motion::Up, None),
        ('h', Motion::Left, None),
        ('l', Motion::Right, None),
        (':', Motion::EnterCommandMode, None),
        ('/', Motion::EnterSearchMode, None),
        ('0', Motion::LineStart, None),
        ('$', Motion::LineEnd, None),
        ('^', Motion::FirstWord, None),
        ('_', Motion::FirstWord, None),
        ('G', Motion::FileEnd, None),
        ('w', Motion::Word, None),
        ('W', Motion::UpperWord, None),
        ('e', Motion::End, None),
        ('E', Motion::UpperEnd, None),
        ('b', Motion::Back, None),
        ('B', Motion::UpperBack, None),
        ('o', Motion::NewLineBelow, None),
        ('O', Motion::NewLineAbove, None),
        ('i', Motion::InsertMode, None),
        ('I', Motion::UpperInsert, None),
        ('a', Motion::Append, None),
        ('A', Motion::UpperAppend, None),
        ('v', Motion::VisualMode, None),
        ('}', Motion::NextEmptyLine, None),
        ('{', Motion::PrevEmptyLine, None),
        ('p', Motion::Paste, None),
        ('P', Motion::UpperPaste, None),
        ('n', Motion::NextSearchResult, None),
        ('N', Motion::PrevSearchResult, None),
        ('.', Motion::Repeat, None),
        ('C', Motion::UpperChange, Some(Action::Change)),
        ('D', Motion::LineEnd, Some(Action::Delete)),
        ('Y', Motion::LineEnd, Some(Action::Yank)),
        ('x', Motion::Right, Some(Action::Delete)),
        ('X', Motion::Right, None),
    ];
    for (c, m, a) in table {
        if c == 'X' {
            let mut p = Parser::default();
            assert!(p.generate_command(key(c), false).is_none());
            continue;
        }
        let mut p = Parser::default();
        let r = p.generate_command(key(c), false).expect("a command");
        assert_eq!((r.motion, r.action, r.count.as_str()), (Some(m), a, ""), "key {}", c);
    }
}

#[test]
fn shifted_letters_match_upper_case_bindings() {
    let mut p = Parser::default();
    let r = p.generate_command(KeyEvent::new(KeyCode::Char('G'), SHIFT), false).unwrap();
    assert_eq!(r.motion, Some(Motion::FileEnd));
    let mut p = Parser::default();
    let r = p.generate_command(KeyEvent::new(KeyCode::Char('g'), SHIFT), false).unwrap();
    assert_eq!(r.motion, Some(Motion::FileEnd));
}

#[test]
fn control_keys_scroll_half_a_screen() {
    let mut p = Parser::default();
    let r = p.generate_command(KeyEvent::new(KeyCode::Char('d'), CONTROL), false).unwrap();
    assert_eq!((r.motion, r.action), (Some(Motion::HalfScreenDown), None));
    let mut p = Parser::default();
    let r = p.generate_command(KeyEvent::new(KeyCode::Char('u'), CONTROL), false).unwrap();
    assert_eq!((r.motion, r.action), (Some(Motion::HalfScreenUp), None));
}

#[test]
fn gg_takes_two_keys() {
    let mut p = Parser::default();
    assert_eq!(last(&mut p, "gg"), Some((Some(Motion::FileStart), None, String::new())));
}

#[test]
fn operator_twice_acts_on_lines() {
    let mut p = Parser::default();
    assert_eq!(last(&mut p, "dd"), Some((Some(Motion::DeleteLine), Some(Action::Delete), String::new())));
    let mut p = Parser::default();
    assert_eq!(last(&mut p, "cc"), Some((Some(Motion::ChangeLine), Some(Action::Change), String::new())));
    let mut p = Parser::default();
    assert_eq!(last(&mut p, "2yy"), Some((Some(Motion::YankLine), Some(Action::Yank), "2".to_string())));
}

#[test]
fn count_operator_motion() {
    let mut p = Parser::default();
    assert_eq!(last(&mut p, "3dw"), Some((Some(Motion::Word), Some(Action::Delete), "3".to_string())));
    assert_eq!(p.input_buffer, "3dw");
    let mut p = Parser::default();
    assert_eq!(last(&mut p, "12j"), Some((Some(Motion::Down), None, "12".to_string())));
}

#[test]
fn change_word_stops_at_the_word_end() {
    let mut p = Parser::default();
    assert_eq!(last(&mut p, "cw"), Some((Some(Motion::End), Some(Action::Change), String::new())));
    let mut p = Parser::default();
    assert_eq!(last(&mut p, "cW"), Some((Some(Motion::UpperEnd), Some(Action::Change), String::new())));
}

#[test]
fn zero_after_an_operator() {
    let mut p = Parser::default();
    assert_eq!(last(&mut p, "y0"), Some((Some(Motion::LineStart), Some(Action::Yank), String::new())));
    let mut p = Parser::default();
    assert_eq!(last(&mut p, "d0w"), Some((Some(Motion::Word), Some(Action::Delete), "0".to_string())));
}

#[test]
fn operators_in_visual_mode_act_at_once() {
    let mut p = Parser::default();
    let r = p.generate_command(key('d'), true).unwrap();
    assert_eq!((r.motion, r.action, r.count.as_str()), (None, Some(Action::Delete), ""));
    let r = p.generate_command(key('y'), true).unwrap();
    assert_eq!((r.motion, r.action, r.count.as_str()), (None, Some(Action::Yank), ""));
}

#[test]
fn unknown_key_resets_the_parser() {
    let mut p = Parser::default();
    assert!(p.generate_command(key('3'), false).is_none());
    assert!(p.generate_command(key('d'), false).is_none());
    assert!(p.generate_command(key('z'), false).is_none());
    assert!(p.command.is_none());
    assert!(p.motion_buffer.is_empty());
    assert_eq!(p.input_buffer, "");
    assert!(p.generate_command(KeyEvent::new(KeyCode::F(1), NONE), false).is_none());
    assert!(p.motion_buffer.is_empty());
}

#[test]
fn pending_keys_are_kept() {
    let mut p = Parser::default();
    assert!(p.generate_command(key('g'), false).is_none());
    assert_eq!(p.motion_buffer.len(), 1);
    p.reset();
    assert!(p.motion_buffer.is_empty());
    assert!(p.command.is_none());
    assert_eq!(p.input_buffer, "");
}

#[test]
fn trie_insert_and_search() {
    let mut t = TrieNode::default();
    let a = key('a');
    let b = key('b');
    t.insert(&[a, b], Motion::Up);
    t.insert(&[key('c')], Motion::Down);
    let n1 = t.search(&a, &t).expect("a node for a");
    assert_eq!(n1.command, None);
    let n2 = t.search(&b, n1).expect("a node for ab");
    assert_eq!(n2.command, Some(Motion::Up));
    assert!(t.search(&b, &t).is_none());
    assert_eq!(t.search(&key('c'), &t).unwrap().command, Some(Motion::Down));
    t.insert(&[key('c')], Motion::Left);
    assert_eq!(t.search(&key('c'), &t).unwrap().command, Some(Motion::Left));
}

#[test]
fn trie_search_compares_keys_case_aware() {
    let mut t = TrieNode::default();
    t.insert(&[KeyEvent::new(KeyCode::Char('A'), NONE)], Motion::Up);
    let shifted = KeyEvent::new(KeyCode::Char('a'), SHIFT);
    assert_eq!(t.search(&shifted, &t).unwrap().command, Some(Motion::Up));
    assert!(t.search(&key('a'), &t).is_none());
}

#[test]
fn same_key_follows_case_normalization() {
    let g_shift = KeyEvent::new(KeyCode::Char('G'), SHIFT);
    let g_plain = KeyEvent::new(KeyCode::Char('G'), NONE);
    let lower_shift = KeyEvent::new(KeyCode::Char('g'), SHIFT);
    assert!(g_shift.same(&g_plain));
    assert!(lower_shift.same(&g_plain));
    assert!(!key('g').same(&g_plain));
    let mut released = key('g');
    released.kind = KeyEventKind::Release;
    assert!(!released.same(&key('g')));
    assert!(key('g').same(&key('g')));
    assert!(!KeyEvent::new(KeyCode::Char('g'), CONTROL).same(&key('g')));
}
