pub mod text;
pub mod chars;
pub mod scan;
pub mod types;
pub mod ranges;
pub mod strings;
pub mod find;
pub mod undo;
pub mod keys;
pub mod commands;
pub mod trie;
pub mod helpers;
pub mod editor;
pub mod screen;
