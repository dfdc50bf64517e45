//! Core of a line-oriented text editor: a byte-indexed text buffer with a
//! cursor engine, a rule-based lexical line highlighter, a loadable
//! per-language rule registry, and viewport virtualization so that only
//! visible lines are rendered and highlighted.

pub mod buffer;
pub mod highlight;
pub mod registry;
pub mod syntax;
pub mod viewport;
