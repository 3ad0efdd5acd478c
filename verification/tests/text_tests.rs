use char_editor::chars::{is_whitespace, is_word_char, to_digit};
use char_editor::find::{find_str, rfind_str};
use char_editor::undo::Action;
use ropey::Rope;

#[test]
fn whitespace_agrees_with_std() {
    for v in 0u32..=0x10FFFF {
        if let Some(c) = char::from_u32(v) {
            assert_eq!(is_whitespace(c), c.is_whitespace(), "char {:#x}", v);
        }
    }
}

#[test]
fn word_chars() {
    assert!(is_word_char('a'));
    assert!(is_word_char('Z'));
    assert!(is_word_char('7'));
    assert!(is_word_char('_'));
    assert!(is_word_char('é'));
    assert!(!is_word_char('.'));
    assert!(!is_word_char(' '));
    assert!(!is_word_char('-'));
}

#[test]
fn digits() {
    assert_eq!(to_digit('0'), Some(0));
    assert_eq!(to_digit('9'), Some(9));
    assert_eq!(to_digit('a'), None);
    assert_eq!(to_digit('٣'), None);
}

#[test]
fn find_agrees_with_std() {
    let hays = ["", "abc", "abcabc", "héllo wörld", "aaa", "x✓y✓z", "\n\n"];
    let qs = ["", "a", "bc", "ö", "✓", "aa", "zz", "\n", "héllo wörld!"];
    for h in hays {
        for q in qs {
            assert_eq!(find_str(h, q), h.find(q), "find {:?} in {:?}", q, h);
            assert_eq!(rfind_str(h, q), h.rfind(q), "rfind {:?} in {:?}", q, h);
        }
    }
}

#[test]
fn insert_executes_and_undoes() {
    let mut r = Rope::from_str("abcd");
    let a = Action::Insert { idx: 2, content: "xy".to_string() };
    assert_eq!(a.execute(&mut r), 2);
    assert_eq!(r.to_string(), "abxycd");
    assert_eq!(a.undo(&mut r), 1);
    assert_eq!(r.to_string(), "abcd");
}

#[test]
fn delete_executes_and_undoes() {
    let mut r = Rope::from_str("abcd");
    let a = Action::Delete { idx: 1, content: "bc".to_string() };
    assert_eq!(a.execute(&mut r), 2);
    assert_eq!(r.to_string(), "ad");
    assert_eq!(a.undo(&mut r), 2);
    assert_eq!(r.to_string(), "abcd");
    assert_eq!(a.execute(&mut r), 2);
    assert_eq!(r.to_string(), "ad");
}

#[test]
fn empty_insert_undo_answers_zero() {
    let mut r = Rope::from_str("ab");
    let a = Action::Insert { idx: 1, content: String::new() };
    assert_eq!(a.execute(&mut r), 0);
    assert_eq!(a.undo(&mut r), 0);
    assert_eq!(r.to_string(), "ab");
}
