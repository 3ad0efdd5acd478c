//! Key presses as the editor reads them: the key, the modifiers held, the
//! kind of event and the keyboard state, with the terminal library's notion of
//! two presses being the same key.

use vstd::prelude::*;
use crate::chars::{is_ascii_upper, ascii_upper};

verus! {

/// The key that was pressed; media and modifier keys carry the index of the
/// key in their group.
#[derive(Debug, Clone, Copy, PartialEq, Eq, Structural)]
pub enum KeyCode {
    Backspace,
    Enter,
    Left,
    Right,
    Up,
    Down,
    Home,
    End,
    PageUp,
    PageDown,
    Tab,
    BackTab,
    Delete,
    Insert,
    F(u8),
    Char(char),
    Null,
    Esc,
    CapsLock,
    ScrollLock,
    NumLock,
    PrintScreen,
    Pause,
    Menu,
    KeypadBegin,
    Media(u8),
    Modifier(u8),
}

/// Whether the key went down, repeated or came up.
#[derive(Debug, Clone, Copy, PartialEq, Eq, Structural)]
pub enum KeyEventKind {
    Press,
    Repeat,
    Release,
}

/// The modifier bit of Shift.
pub const SHIFT: u8 = 0b0000_0001;

/// The modifier bit of Control.
pub const CONTROL: u8 = 0b0000_0010;

/// No modifier held.
pub const NONE: u8 = 0b0000_0000;

/// A key event: `modifiers` and `state` are bit sets (Shift, Control, Alt,
/// Super, Hyper, Meta; keypad, caps lock, num lock).
#[derive(Debug, Clone, Copy)]
pub struct KeyEvent {
    pub code: KeyCode,
    pub modifiers: u8,
    pub kind: KeyEventKind,
    pub state: u8,
}

/// A key event as it is compared: an upper-case ASCII letter carries Shift,
/// and a letter typed with Shift is upper case.
pub open spec fn normalized(k: KeyEvent) -> KeyEvent {
    match k.code {
        KeyCode::Char(c) => if is_ascii_upper(c) {
            KeyEvent { modifiers: k.modifiers | SHIFT, ..k }
        } else if k.modifiers & SHIFT != 0 {
            KeyEvent { code: KeyCode::Char(ascii_upper(c)), ..k }
        } else {
            k
        },
        _ => k,
    }
}

/// Two key events stand for the same key when their normalized forms agree.
pub open spec fn same_key(a: KeyEvent, b: KeyEvent) -> bool {
    normalized(a) == normalized(b)
}

impl KeyEvent {
    /// A press of `code` with `modifiers`, in no particular keyboard state.
    pub fn new(code: KeyCode, modifiers: u8) -> (k: KeyEvent)
        ensures
            k == (KeyEvent { code, modifiers, kind: KeyEventKind::Press, state: 0 }),
    {
        KeyEvent { code, modifiers, kind: KeyEventKind::Press, state: 0 }
    }

    fn normalize(&self) -> (k: KeyEvent)
        ensures
            k == normalized(*self),
    {
        match self.code {
            KeyCode::Char(c) => {
                if 'A' <= c && c <= 'Z' {
                    KeyEvent { modifiers: self.modifiers | SHIFT, ..*self }
                } else if self.modifiers & SHIFT != 0 {
                    let u = if 'a' <= c && c <= 'z' {
                        ((c as u32) - 32) as u8 as char
                    } else {
                        c
                    };
                    KeyEvent { code: KeyCode::Char(u), ..*self }
                } else {
                    *self
                }
            },
            _ => *self,
        }
    }

    /// Whether `self` and `other` stand for the same key.
    pub fn same(&self, other: &KeyEvent) -> (r: bool)
        ensures
            r == same_key(*self, *other),
    {
        let a = self.normalize();
        let b = other.normalize();
        a.code == b.code && a.modifiers == b.modifiers && a.kind == b.kind && a.state == b.state
    }
}

} // verus!
