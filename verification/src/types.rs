//! The plain data of the editor: cursor, selections, modes and yank buffers.

use vstd::prelude::*;

verus! {

/// What a yank stored: chars of one line, whole lines, or a block of line pieces.
#[derive(Clone, Debug)]
pub enum YankBuffer {
    Chars(String),
    Lines(String),
    Block(Vec<String>),
}

/// What a yank buffer holds, as strings of chars.
pub enum YankView {
    Chars(Seq<char>),
    Lines(Seq<char>),
    Block(Seq<Seq<char>>),
}

impl View for YankBuffer {
    type V = YankView;

    open spec fn view(&self) -> YankView {
        match self {
            YankBuffer::Chars(s) => YankView::Chars(s@),
            YankBuffer::Lines(s) => YankView::Lines(s@),
            YankBuffer::Block(v) => YankView::Block(v@.map_values(|s: String| s@)),
        }
    }
}

/// A rectangle of columns (`x_rng`) and lines (`y_rng`), each an inclusive pair.
#[derive(Default, Debug, Clone, Copy)]
pub struct VisualBlockRng {
    pub x_rng: [usize; 2],
    pub y_rng: [usize; 2],
}

/// A selection between the char index where it was anchored and the cursor's char index.
#[derive(Default, Debug, Clone, Copy, PartialEq, Eq, Structural)]
pub struct VisualSelection {
    pub ancor: usize,
    pub cursor: usize,
}

/// The cursor: column `x` and line `y`, and the column and line it prefers
/// to return to.
#[derive(Default, Debug, Clone, Copy, PartialEq, Eq, Structural)]
pub struct CursorPos {
    pub x: usize,
    pub y: usize,
    pub preferred_x: usize,
    pub preferred_y: usize,
}

/// The editor's modes.
#[derive(Debug, Clone, Copy, PartialEq, Eq, Structural)]
pub enum Mode {
    Normal,
    Insert,
    Visual,
    VisualLine(usize),
    VisualBlock,
    Command,
    Search,
    Exit,
}

impl Default for Mode {
    /// The editor starts in normal mode.
    fn default() -> (m: Self)
        ensures
            m == Mode::Normal,
    {
        Mode::Normal
    }
}

} // verus!
