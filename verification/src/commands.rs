//! Turning key presses into editor commands: a pending count, an action
//! (delete, change, yank) and a motion found in the key trie.

use vstd::prelude::*;
use crate::keys::{KeyCode, KeyEvent, KeyEventKind, CONTROL, NONE, same_key};
use crate::trie::{
    TrieNode, lookup, motion_at, reaches, same_path, path_prefix, distinct_keys, lemma_distinct_children,
    lemma_one_key_paths, has_child_for,
};
use crate::chars::{digit_value, to_digit};
use crate::strings::push_char;

verus! {

// motions are not dependant on actions and should execute immediately
#[derive(Debug, Clone, Copy, PartialEq, Eq, Structural)]
pub enum Motion {
    Up,
    Down,
    Left,
    Right,
    HalfScreenDown,
    HalfScreenUp,
    NextEmptyLine,
    PrevEmptyLine,
    LineStart,
    LineEnd,
    FirstWord,
    FileStart,
    FileEnd,
    Word,
    End,
    Back,
    UpperWord,
    UpperEnd,
    UpperBack,
    NewLineBelow,
    NewLineAbove,
    InsertMode,
    VisualMode,
    UpperInsert,
    Append,
    UpperAppend,
    UpperChange,
    UpperDelete,
    EnterCommandMode,
    EnterSearchMode,
    DeleteLine,
    ChangeLine,
    DeleteChar,
    YankLine,
    UpperYank,
    Paste,
    UpperPaste,
    NextSearchResult,
    PrevSearchResult,
    Repeat,
}

/// What an operator does with the text a motion covers.
#[derive(Debug, Clone, Copy, PartialEq, Eq, Structural)]
pub enum Action {
    Delete,
    Change,
    Yank,
}

/// A command: an optional motion, an optional action and the digits of its count.
#[derive(Debug)]
pub struct Command {
    pub motion: Option<Motion>,
    pub action: Option<Action>,
    pub count: String,
}

impl Default for Command {
    /// No motion, no action, no count.
    fn default() -> (c: Self)
        ensures
            c.motion is None,
            c.action is None,
            c.count@ == Seq::<char>::empty(),
    {
        Command { motion: None, action: None, count: String::new() }
    }
}

impl Clone for Command {
    /// The same motion, action and count.
    fn clone(&self) -> (c: Self)
        ensures
            c.motion == self.motion,
            c.action == self.action,
            c.count@ == self.count@,
    {
        Command { motion: self.motion, action: self.action, count: self.count.clone() }
    }
}

/// What a command holds: its motion, its action and the digits of its count.
pub struct CommandView {
    pub motion: Option<Motion>,
    pub action: Option<Action>,
    pub count: Seq<char>,
}

impl View for Command {
    type V = CommandView;

    open spec fn view(&self) -> CommandView {
        CommandView { motion: self.motion, action: self.action, count: self.count@ }
    }
}

/// The view of an optional command.
pub open spec fn opt_view(c: Option<Command>) -> Option<CommandView> {
    match c {
        Some(cmd) => Some(cmd@),
        None => None,
    }
}

/// A press of the char `c` with `modifiers`, in no particular keyboard state.
pub open spec fn key_press(c: char, modifiers: u8) -> KeyEvent {
    KeyEvent { code: KeyCode::Char(c), modifiers, kind: KeyEventKind::Press, state: 0 }
}

/// The single key `c`, typed without modifiers.
pub open spec fn plain(c: char) -> Seq<KeyEvent> {
    seq![key_press(c, NONE)]
}

/// The key sequences of normal mode and the motions they stand for, in the
/// order in which they are entered into the trie.
pub open spec fn key_bindings() -> Seq<(Seq<KeyEvent>, Motion)> {
    seq![
        (plain('j'), Motion::Down),
        (plain('k'), Motion::Up),
        (plain('h'), Motion::Left),
        (plain('l'), Motion::Right),
        (plain(':'), Motion::EnterCommandMode),
        (plain('/'), Motion::EnterSearchMode),
        (seq![key_press('g', NONE), key_press('g', NONE)], Motion::FileStart),
        (plain('0'), Motion::LineStart),
        (plain('$'), Motion::LineEnd),
        (plain('^'), Motion::FirstWord),
        (plain('_'), Motion::FirstWord),
        (plain('G'), Motion::FileEnd),
        (plain('w'), Motion::Word),
        (plain('W'), Motion::UpperWord),
        (plain('e'), Motion::End),
        (plain('E'), Motion::UpperEnd),
        (plain('b'), Motion::Back),
        (plain('B'), Motion::UpperBack),
        (plain('o'), Motion::NewLineBelow),
        (plain('O'), Motion::NewLineAbove),
        (plain('i'), Motion::InsertMode),
        (plain('I'), Motion::UpperInsert),
        (plain('a'), Motion::Append),
        (plain('A'), Motion::UpperAppend),
        (plain('v'), Motion::VisualMode),
        (seq![key_press('d', CONTROL)], Motion::HalfScreenDown),
        (seq![key_press('u', CONTROL)], Motion::HalfScreenUp),
        (plain('}'), Motion::NextEmptyLine),
        (plain('{'), Motion::PrevEmptyLine),
        (plain('p'), Motion::Paste),
        (plain('P'), Motion::UpperPaste),
        (plain('n'), Motion::NextSearchResult),
        (plain('N'), Motion::PrevSearchResult),
        (plain('.'), Motion::Repeat),
        (plain('C'), Motion::UpperChange),
        (plain('D'), Motion::UpperDelete),
        (plain('Y'), Motion::UpperYank),
        (plain('x'), Motion::DeleteChar),
    ]
}

/// The motion that a trie built by inserting the bindings of `tbl` in order
/// gives to the keys `q`: that of the last binding with the same keys.
pub open spec fn table_motion(tbl: Seq<(Seq<KeyEvent>, Motion)>, q: Seq<KeyEvent>) -> Option<Motion>
    decreases tbl.len(),
{
    if tbl.len() == 0 {
        None
    } else if same_path(q, tbl.last().0) {
        Some(tbl.last().1)
    } else {
        table_motion(tbl.drop_last(), q)
    }
}

/// Whether the keys `q` lead to a node of a trie built from the bindings of
/// `tbl`: `q` is empty or begins some binding's keys.
pub open spec fn table_reaches(tbl: Seq<(Seq<KeyEvent>, Motion)>, q: Seq<KeyEvent>) -> bool
    decreases tbl.len(),
{
    if tbl.len() == 0 {
        q.len() == 0
    } else {
        path_prefix(q, tbl.last().0) || table_reaches(tbl.drop_last(), q)
    }
}

/// The trie `t` holds exactly the bindings of `tbl`.
pub open spec fn built_from(t: TrieNode, tbl: Seq<(Seq<KeyEvent>, Motion)>) -> bool {
    &&& forall|q: Seq<KeyEvent>| #[trigger] motion_at(t, q) == table_motion(tbl, q)
    &&& forall|q: Seq<KeyEvent>| #[trigger] reaches(t, q) == table_reaches(tbl, q)
}

/// Some binding of `tbl` has keys that begin with the same key as `k`.
pub open spec fn starts_a_binding(tbl: Seq<(Seq<KeyEvent>, Motion)>, k: KeyEvent) -> bool {
    exists|b: int| 0 <= b < tbl.len() && tbl[b].0.len() > 0 && same_key(k, #[trigger] tbl[b].0[0])
}

/// A key that leads into the trie of `tbl` begins some binding's keys.
proof fn lemma_reach_one(tbl: Seq<(Seq<KeyEvent>, Motion)>, k: KeyEvent)
    requires
        table_reaches(tbl, seq![k]),
    ensures
        starts_a_binding(tbl, k),
    decreases tbl.len(),
{
    let q = seq![k];
    assert(q.len() == 1 && q[0] == k);
    if path_prefix(q, tbl.last().0) {
        assert(tbl[tbl.len() - 1].0[0] == tbl.last().0[0]);
    } else {
        lemma_reach_one(tbl.drop_last(), k);
        let b = choose|b: int|
            0 <= b < tbl.drop_last().len() && tbl.drop_last()[b].0.len() > 0 && same_key(k, #[trigger] tbl.drop_last()[b].0[0]);
        assert(tbl.drop_last()[b] == tbl[b]);
    }
}

/// The first key of the keys of a binding leads to a node of the trie of `tbl`.
proof fn lemma_first_key_reached(tbl: Seq<(Seq<KeyEvent>, Motion)>, b: int)
    requires
        0 <= b < tbl.len(),
        tbl[b].0.len() > 0,
    ensures
        table_reaches(tbl, seq![tbl[b].0[0]]),
    decreases tbl.len(),
{
    let q = seq![tbl[b].0[0]];
    if b < tbl.len() - 1 {
        assert(tbl.drop_last()[b] == tbl[b]);
        lemma_first_key_reached(tbl.drop_last(), b);
    } else {
        assert(q.drop_first().len() == 0);
        assert(path_prefix(q.drop_first(), tbl.last().0.drop_first()));
        assert(path_prefix(q, tbl.last().0));
    }
}

/// In a trie with distinct keys that holds the bindings of `tbl`, all with
/// keys, the children of the root are one per first key of the bindings.
proof fn lemma_root_matches(t: TrieNode, tbl: Seq<(Seq<KeyEvent>, Motion)>)
    requires
        built_from(t, tbl),
        distinct_keys(t),
        forall|b: int| 0 <= b < tbl.len() ==> #[trigger] tbl[b].0.len() > 0,
    ensures
        forall|a: int, b: int|
            0 <= a < b < t.kids().len() ==> !same_key(#[trigger] t.kids()[a].0, #[trigger] t.kids()[b].0),
        forall|i: int| 0 <= i < t.kids().len() ==> starts_a_binding(tbl, #[trigger] t.kids()[i].0),
        forall|b: int| 0 <= b < tbl.len() ==> has_child_for(t, #[trigger] tbl[b].0[0]),
{
    lemma_distinct_children(t);
    lemma_one_key_paths(t);
    assert forall|i: int| 0 <= i < t.kids().len() implies starts_a_binding(tbl, #[trigger] t.kids()[i].0) by {
        let k = t.kids()[i].0;
        assert(reaches(t, seq![k]));
        lemma_reach_one(tbl, k);
    }
    assert forall|b: int| 0 <= b < tbl.len() implies has_child_for(t, #[trigger] tbl[b].0[0]) by {
        lemma_first_key_reached(tbl, b);
        assert(reaches(t, seq![tbl[b].0[0]]));
    }
}

/// Enters the `i`-th binding, `keys` to `motion`, into a trie that holds the
/// bindings before it.
fn bind(trie: &mut TrieNode, Ghost(i): Ghost<int>, keys: &[KeyEvent], motion: Motion)
    requires
        0 <= i < key_bindings().len(),
        keys@ =~= key_bindings()[i].0,
        keys@.len() > 0,
        motion == key_bindings()[i].1,
        built_from(*old(trie), key_bindings().take(i)),
        distinct_keys(*old(trie)),
        motion_at(*old(trie), Seq::empty()) is None,
        forall|b: int| 0 <= b < i ==> #[trigger] key_bindings()[b].0.len() > 0,
    ensures
        built_from(*final(trie), key_bindings().take(i + 1)),
        distinct_keys(*final(trie)),
        motion_at(*final(trie), Seq::empty()) is None,
        forall|b: int| 0 <= b < i + 1 ==> #[trigger] key_bindings()[b].0.len() > 0,
{
    let ghost before = *trie;
    trie.insert(keys, motion);
    proof {
        let tbl = key_bindings().take(i + 1);
        assert(tbl.drop_last() == key_bindings().take(i));
        assert(tbl.last() == key_bindings()[i]);
        assert forall|q: Seq<KeyEvent>|
            #![trigger motion_at(*trie, q)]
            #![trigger reaches(*trie, q)]
            motion_at(*trie, q) == table_motion(tbl, q) && reaches(*trie, q) == table_reaches(tbl, q) by {
            assert(motion_at(before, q) == table_motion(key_bindings().take(i), q));
            assert(reaches(before, q) == table_reaches(key_bindings().take(i), q));
        }
        assert(!same_path(Seq::<KeyEvent>::empty(), keys@));
        assert(motion_at(*trie, Seq::empty()) == motion_at(before, Seq::empty()));
    }
}

/// The trie of the normal-mode key bindings.
///
/// The root holds no motion, no node has two children for one key, and the
/// root's children are exactly one per first key of the bindings.
#[verifier::rlimit(50)]
fn generate_trie() -> (t: TrieNode)
    ensures
        built_from(t, key_bindings()),
        distinct_keys(t),
        motion_at(t, Seq::empty()) is None,
        forall|a: int, b: int|
            0 <= a < b < t.kids().len() ==> !same_key(#[trigger] t.kids()[a].0, #[trigger] t.kids()[b].0),
        forall|i: int| 0 <= i < t.kids().len() ==> starts_a_binding(key_bindings(), #[trigger] t.kids()[i].0),
        forall|b: int| 0 <= b < key_bindings().len() ==> has_child_for(t, #[trigger] key_bindings()[b].0[0]),
{
    let mut trie = TrieNode::default();
    proof {
        assert(key_bindings().take(0).len() == 0);
    }
    bind(&mut trie, Ghost(0), &[KeyEvent::new(KeyCode::Char('j'), NONE)], Motion::Down);
    bind(&mut trie, Ghost(1), &[KeyEvent::new(KeyCode::Char('k'), NONE)], Motion::Up);
    bind(&mut trie, Ghost(2), &[KeyEvent::new(KeyCode::Char('h'), NONE)], Motion::Left);
    bind(&mut trie, Ghost(3), &[KeyEvent::new(KeyCode::Char('l'), NONE)], Motion::Right);
    bind(&mut trie, Ghost(4), &[KeyEvent::new(KeyCode::Char(':'), NONE)], Motion::EnterCommandMode);
    bind(&mut trie, Ghost(5), &[KeyEvent::new(KeyCode::Char('/'), NONE)], Motion::EnterSearchMode);
    bind(
        &mut trie,
        Ghost(6),
        &[KeyEvent::new(KeyCode::Char('g'), NONE), KeyEvent::new(KeyCode::Char('g'), NONE)],
        Motion::FileStart,
    );
    bind(&mut trie, Ghost(7), &[KeyEvent::new(KeyCode::Char('0'), NONE)], Motion::LineStart);
    bind(&mut trie, Ghost(8), &[KeyEvent::new(KeyCode::Char('$'), NONE)], Motion::LineEnd);
    bind(&mut trie, Ghost(9), &[KeyEvent::new(KeyCode::Char('^'), NONE)], Motion::FirstWord);
    bind(&mut trie, Ghost(10), &[KeyEvent::new(KeyCode::Char('_'), NONE)], Motion::FirstWord);
    bind(&mut trie, Ghost(11), &[KeyEvent::new(KeyCode::Char('G'), NONE)], Motion::FileEnd);
    bind(&mut trie, Ghost(12), &[KeyEvent::new(KeyCode::Char('w'), NONE)], Motion::Word);
    bind(&mut trie, Ghost(13), &[KeyEvent::new(KeyCode::Char('W'), NONE)], Motion::UpperWord);
    bind(&mut trie, Ghost(14), &[KeyEvent::new(KeyCode::Char('e'), NONE)], Motion::End);
    bind(&mut trie, Ghost(15), &[KeyEvent::new(KeyCode::Char('E'), NONE)], Motion::UpperEnd);
    bind(&mut trie, Ghost(16), &[KeyEvent::new(KeyCode::Char('b'), NONE)], Motion::Back);
    bind(&mut trie, Ghost(17), &[KeyEvent::new(KeyCode::Char('B'), NONE)], Motion::UpperBack);
    bind(&mut trie, Ghost(18), &[KeyEvent::new(KeyCode::Char('o'), NONE)], Motion::NewLineBelow);
    bind(&mut trie, Ghost(19), &[KeyEvent::new(KeyCode::Char('O'), NONE)], Motion::NewLineAbove);
    bind(&mut trie, Ghost(20), &[KeyEvent::new(KeyCode::Char('i'), NONE)], Motion::InsertMode);
    bind(&mut trie, Ghost(21), &[KeyEvent::new(KeyCode::Char('I'), NONE)], Motion::UpperInsert);
    bind(&mut trie, Ghost(22), &[KeyEvent::new(KeyCode::Char('a'), NONE)], Motion::Append);
    bind(&mut trie, Ghost(23), &[KeyEvent::new(KeyCode::Char('A'), NONE)], Motion::UpperAppend);
    bind(&mut trie, Ghost(24), &[KeyEvent::new(KeyCode::Char('v'), NONE)], Motion::VisualMode);
    bind(&mut trie, Ghost(25), &[KeyEvent::new(KeyCode::Char('d'), CONTROL)], Motion::HalfScreenDown);
    bind(&mut trie, Ghost(26), &[KeyEvent::new(KeyCode::Char('u'), CONTROL)], Motion::HalfScreenUp);
    bind(&mut trie, Ghost(27), &[KeyEvent::new(KeyCode::Char('}'), NONE)], Motion::NextEmptyLine);
    bind(&mut trie, Ghost(28), &[KeyEvent::new(KeyCode::Char('{'), NONE)], Motion::PrevEmptyLine);
    bind(&mut trie, Ghost(29), &[KeyEvent::new(KeyCode::Char('p'), NONE)], Motion::Paste);
    bind(&mut trie, Ghost(30), &[KeyEvent::new(KeyCode::Char('P'), NONE)], Motion::UpperPaste);
    bind(&mut trie, Ghost(31), &[KeyEvent::new(KeyCode::Char('n'), NONE)], Motion::NextSearchResult);
    bind(&mut trie, Ghost(32), &[KeyEvent::new(KeyCode::Char('N'), NONE)], Motion::PrevSearchResult);
    bind(&mut trie, Ghost(33), &[KeyEvent::new(KeyCode::Char('.'), NONE)], Motion::Repeat);
    bind(&mut trie, Ghost(34), &[KeyEvent::new(KeyCode::Char('C'), NONE)], Motion::UpperChange);
    bind(&mut trie, Ghost(35), &[KeyEvent::new(KeyCode::Char('D'), NONE)], Motion::UpperDelete);
    bind(&mut trie, Ghost(36), &[KeyEvent::new(KeyCode::Char('Y'), NONE)], Motion::UpperYank);
    bind(&mut trie, Ghost(37), &[KeyEvent::new(KeyCode::Char('x'), NONE)], Motion::DeleteChar);
    proof {
        assert(key_bindings().take(38) == key_bindings());
        lemma_root_matches(trie, key_bindings());
    }
    trie
}

/// The key parser: the trie of bindings, the keys typed towards a motion, the
/// command being put together, and every char typed since the last reset.
pub struct Parser {
    trie: TrieNode,
    pub motion_buffer: Vec<KeyEvent>,
    pub command: Option<Command>,
    pub input_buffer: String,
}

/// What a parser holds besides its trie.
pub struct ParserView {
    pub motion_buffer: Seq<KeyEvent>,
    pub command: Option<CommandView>,
    pub input_buffer: Seq<char>,
}

impl View for Parser {
    type V = ParserView;

    closed spec fn view(&self) -> ParserView {
        ParserView {
            motion_buffer: self.motion_buffer@,
            command: opt_view(self.command),
            input_buffer: self.input_buffer@,
        }
    }
}

impl Parser {
    /// The trie of bindings that the parser looks motions up in.
    pub closed spec fn keys(self) -> TrieNode {
        self.trie
    }
}

/// A parser with nothing typed.
pub open spec fn empty_parser() -> ParserView {
    ParserView { motion_buffer: Seq::empty(), command: None, input_buffer: Seq::empty() }
}

/// A command with no motion, no action and no count.
pub open spec fn no_command() -> CommandView {
    CommandView { motion: None, action: None, count: Seq::empty() }
}

/// The action that the key `k` starts: `d`, `c` or `y` typed without modifiers.
pub open spec fn operator_key(k: KeyEvent) -> Option<Action> {
    if k.modifiers == NONE {
        match k.code {
            KeyCode::Char('d') => Some(Action::Delete),
            KeyCode::Char('c') => Some(Action::Change),
            KeyCode::Char('y') => Some(Action::Yank),
            _ => None,
        }
    } else {
        None
    }
}

/// The motion of an action typed twice (`dd`, `cc`, `yy`): the whole line.
pub open spec fn line_motion(a: Action) -> Motion {
    match a {
        Action::Delete => Motion::DeleteLine,
        Action::Change => Motion::ChangeLine,
        Action::Yank => Motion::YankLine,
    }
}

/// Whether the char `c` goes to the count of the pending command: a digit,
/// but not `0` when nothing is pending (it is then a motion), and not `0`
/// after a yank.
pub open spec fn takes_digit(cmd: Option<CommandView>, c: char) -> bool {
    match digit_value(c) {
        Some(n) => match cmd {
            Some(cv) => !(cv.action == Some(Action::Yank) && n == 0),
            None => n != 0,
        },
        None => false,
    }
}

/// The pending command once the digit `c` is added to its count.
pub open spec fn with_digit(cmd: Option<CommandView>, c: char) -> CommandView {
    match cmd {
        Some(cv) => CommandView { count: cv.count.push(c), ..cv },
        None => CommandView { motion: None, action: None, count: seq![c] },
    }
}

/// The command that the motion `m` completes, given the pending command:
/// the count and action carry over; `cw` and `cW` change to the end of the
/// word; `C`, `D`, `Y` and `x` stand for an action with a motion.
pub open spec fn resolve(cmd: Option<CommandView>, m: Motion) -> CommandView {
    let count = match cmd {
        Some(cv) => cv.count,
        None => Seq::empty(),
    };
    let action = match cmd {
        Some(cv) => cv.action,
        None => None,
    };
    if action == Some(Action::Change) && m == Motion::Word {
        CommandView { motion: Some(Motion::End), action: Some(Action::Change), count }
    } else if action == Some(Action::Change) && m == Motion::UpperWord {
        CommandView { motion: Some(Motion::UpperEnd), action: Some(Action::Change), count }
    } else {
        match m {
            Motion::UpperChange => CommandView {
                motion: Some(Motion::UpperChange),
                action: Some(Action::Change),
                count,
            },
            Motion::UpperDelete => CommandView {
                motion: Some(Motion::LineEnd),
                action: Some(Action::Delete),
                count,
            },
            Motion::UpperYank => CommandView {
                motion: Some(Motion::LineEnd),
                action: Some(Action::Yank),
                count,
            },
            Motion::DeleteChar => CommandView {
                motion: Some(Motion::Right),
                action: Some(Action::Delete),
                count,
            },
            _ => CommandView { motion: Some(m), action, count },
        }
    }
}

/// One key typed into a parser in state `s` whose bindings are `t`: the next
/// state, and the command that is complete, if any.
pub open spec fn step(t: TrieNode, s: ParserView, k: KeyEvent, visual: bool) -> (ParserView, Option<CommandView>) {
    let ib = match k.code {
        KeyCode::Char(c) => s.input_buffer.push(c),
        _ => s.input_buffer,
    };
    let s1 = ParserView { input_buffer: ib, ..s };
    if k.code is Char && takes_digit(s.command, k.code->Char_0) {
        (ParserView { command: Some(with_digit(s.command, k.code->Char_0)), ..s1 }, None)
    } else if operator_key(k) is Some {
        let a = operator_key(k)->Some_0;
        if visual {
            (s1, Some(CommandView { action: Some(a), ..no_command() }))
        } else {
            match s.command {
                Some(cv) => if cv.action == Some(a) {
                    let done = CommandView { motion: Some(line_motion(a)), ..cv };
                    (ParserView { command: Some(done), ..s1 }, Some(done))
                } else {
                    (ParserView { command: Some(CommandView { action: Some(a), ..cv }), ..s1 }, None)
                },
                None => (ParserView { command: Some(CommandView { action: Some(a), ..no_command() }), ..s1 }, None),
            }
        }
    } else {
        let mb = s.motion_buffer.push(k);
        if reaches(t, mb) {
            let s2 = ParserView { motion_buffer: mb, ..s1 };
            match motion_at(t, mb) {
                Some(m) => (s2, Some(resolve(s.command, m))),
                None => (s2, None),
            }
        } else {
            (empty_parser(), None)
        }
    }
}

impl Default for Parser {
    /// A parser with the normal-mode bindings and nothing typed.
    fn default() -> (p: Self)
        ensures
            built_from(p.keys(), key_bindings()),
            distinct_keys(p.keys()),
            p@ == empty_parser(),
    {
        Parser {
            trie: generate_trie(),
            motion_buffer: vec![],
            command: None,
            input_buffer: String::new(),
        }
    }
}

fn operator(k: &KeyEvent) -> (r: Option<Action>)
    ensures
        r == operator_key(*k),
{
    if k.modifiers == NONE {
        match k.code {
            KeyCode::Char('d') => Some(Action::Delete),
            KeyCode::Char('c') => Some(Action::Change),
            KeyCode::Char('y') => Some(Action::Yank),
            _ => None,
        }
    } else {
        None
    }
}

fn line_motion_of(a: Action) -> (m: Motion)
    ensures
        m == line_motion(a),
{
    match a {
        Action::Delete => Motion::DeleteLine,
        Action::Change => Motion::ChangeLine,
        Action::Yank => Motion::YankLine,
    }
}

fn is_action(a: Option<Action>, b: Action) -> (r: bool)
    ensures
        r == (a == Some(b)),
{
    match a {
        Some(x) => x == b,
        None => false,
    }
}

/// The command that the motion `motion` completes after `pending`.
fn resolve_command(pending: &Option<Command>, motion: Motion) -> (c: Command)
    ensures
        c@ == resolve(opt_view(*pending), motion),
{
    let mut new_cmd = Command::default();
    if let Some(cmd) = pending {
        new_cmd.count = cmd.count.clone();
        if is_action(cmd.action, Action::Change) {
            match motion {
                Motion::Word => {
                    new_cmd.motion = Some(Motion::End);
                    new_cmd.action = Some(Action::Change);
                    return new_cmd;
                },
                Motion::UpperWord => {
                    new_cmd.motion = Some(Motion::UpperEnd);
                    new_cmd.action = Some(Action::Change);
                    return new_cmd;
                },
                _ => {},
            }
        }
        new_cmd.action = cmd.action;
    }
    match motion {
        Motion::UpperChange => {
            new_cmd.motion = Some(motion);
            new_cmd.action = Some(Action::Change);
        },
        Motion::UpperDelete => {
            new_cmd.motion = Some(Motion::LineEnd);
            new_cmd.action = Some(Action::Delete);
        },
        Motion::UpperYank => {
            new_cmd.motion = Some(Motion::LineEnd);
            new_cmd.action = Some(Action::Yank);
        },
        Motion::DeleteChar => {
            new_cmd.motion = Some(Motion::Right);
            new_cmd.action = Some(Action::Delete);
        },
        _ => {
            new_cmd.motion = Some(motion);
        },
    }
    new_cmd
}

impl Parser {
    /// Forgets what was typed: no keys, no pending command, no input.
    pub fn reset(&mut self)
        ensures
            final(self).keys() == old(self).keys(),
            final(self)@ == empty_parser(),
    {
        self.input_buffer = String::new();
        self.motion_buffer.clear();
        self.command = None;
    }

    /// The node of the trie that the typed keys lead to, by its motion.
    fn walk(&self) -> (r: Option<Option<Motion>>)
        ensures
            r == match lookup(self.keys(), self.motion_buffer@) {
                Some(n) => Some(n.motion()),
                None => None,
            },
    {
        let mut node: &TrieNode = &self.trie;
        let mut i: usize = 0;
        assert(self.motion_buffer@.skip(0) == self.motion_buffer@);
        while i < self.motion_buffer.len()
            invariant
                i <= self.motion_buffer@.len(),
                lookup(self.trie, self.motion_buffer@) == lookup(*node, self.motion_buffer@.skip(i as int)),
            decreases self.motion_buffer@.len() - i,
        {
            let ghost rest = self.motion_buffer@.skip(i as int);
            assert(rest[0] == self.motion_buffer@[i as int]);
            assert(rest.drop_first() == self.motion_buffer@.skip(i + 1));
            match self.trie.search(&self.motion_buffer[i], node) {
                Some(next) => {
                    node = next;
                },
                None => {
                    return None;
                },
            }
            i += 1;
        }
        assert(self.motion_buffer@.skip(i as int).len() == 0);
        Some(node.motion_here())
    }

    /// Reads one key: a digit goes to the count, `d`, `c` and `y` to the
    /// action (twice: the whole line; in visual mode: at once), and other keys
    /// to the motion, looked up in the trie; keys that lead nowhere reset the
    /// parser. Returns the command once it is complete.
    pub fn generate_command(&mut self, key_event: KeyEvent, visual_mode: bool) -> (r: Option<Command>)
        ensures
            final(self).keys() == old(self).keys(),
            (final(self)@, opt_view(r)) == step(old(self).keys(), old(self)@, key_event, visual_mode),
    {
        if let KeyCode::Char(c) = key_event.code {
            push_char(&mut self.input_buffer, c);
            // check for number
            if let Some(n) = to_digit(c) {
                match self.command.take() {
                    Some(mut cmd) => {
                        if is_action(cmd.action, Action::Yank) && n == 0 {
                            self.command = Some(cmd);
                        } else {
                            push_char(&mut cmd.count, c);
                            self.command = Some(cmd);
                            return None;
                        }
                    },
                    None => {
                        if n != 0 {
                            let mut count = String::new();
                            push_char(&mut count, c);
                            self.command = Some(Command { motion: None, action: None, count });
                            return None;
                        }
                    },
                }
            }
        }
        // check for action
        if let Some(a) = operator(&key_event) {
            // if in visual mode, send action
            if visual_mode {
                return Some(Command { motion: None, action: Some(a), count: String::new() });
            }
            match self.command.take() {
                Some(mut cmd) => {
                    // the action typed twice takes the whole line
                    if is_action(cmd.action, a) {
                        cmd.motion = Some(line_motion_of(a));
                        let done = cmd.clone();
                        self.command = Some(cmd);
                        return Some(done);
                    }
                    cmd.action = Some(a);
                    self.command = Some(cmd);
                },
                None => {
                    self.command = Some(Command { motion: None, action: Some(a), count: String::new() });
                },
            }
            return None;
        }
        // search for motion
        self.motion_buffer.push(key_event);
        match self.walk() {
            Some(Some(motion)) => Some(resolve_command(&self.command, motion)),
            // a node but not yet a command: keep the keys
            Some(None) => None,
            None => {
                // reset here because we didn't find a node
                self.reset();
                None
            },
        }
    }
}

/// Typing an operator key twice, with no command pending and outside visual
/// mode, completes the command that acts on whole lines (`dd`, `cc`, `yy`);
/// the first key completes nothing.
pub proof fn lemma_operator_twice(t: TrieNode, s: ParserView, k: KeyEvent)
    requires
        operator_key(k) is Some,
        s.command is None,
    ensures
        ({
            let s1 = step(t, s, k, false);
            let s2 = step(t, s1.0, k, false);
            &&& s1.1 is None
            &&& s2.1 == Some(
                CommandView {
                    motion: Some(line_motion(operator_key(k)->Some_0)),
                    action: operator_key(k),
                    count: Seq::empty(),
                },
            )
        }),
{
}

/// A key that is no count digit and no operator, and with which the typed
/// keys lead to no node of the trie, resets the parser and completes nothing.
pub proof fn lemma_dead_end_resets(t: TrieNode, s: ParserView, k: KeyEvent, visual: bool)
    requires
        !(k.code is Char && takes_digit(s.command, k.code->Char_0)),
        operator_key(k) is None,
        !reaches(t, s.motion_buffer.push(k)),
    ensures
        step(t, s, k, visual) == (empty_parser(), None::<CommandView>),
{
}

} // verus!
