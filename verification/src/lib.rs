//! A verified pretty-printing engine for code-shaped debug output.
//!
//! Producers describe a tree-shaped document as an ordered stream of tokens:
//! literal text, group boundaries, breakable whitespace, and punctuation whose
//! final form depends on layout.  The engine consumes that stream and decides,
//! against a target line width, where to break lines and how to indent.  It
//! runs as two cooperating state machines driven by one loop: a scanner that
//! measures how wide each group and segment would render unbroken, over a
//! bounded ring buffer whose occupancy never grows with nesting depth, and a
//! printer that fixes each group's break status the moment it opens and emits
//! the final text, resolving deferred punctuation on the spot.
//!
//! The crate also offers the builder layer that debug implementations use to
//! produce the streams: structs, tuples, lists, maps and sets, in the shape of
//! Rust literals.

pub mod debug_list;
pub mod debug_map;
pub mod debug_set;
pub mod debug_struct;
pub mod debug_tuple;
pub mod debug_tuple_struct;
pub mod formatter;
pub mod impls;
pub mod fragment;
pub mod laws;
pub mod printer;
pub mod ranges;
pub mod render;
pub mod scanner;
pub mod token;

pub use debug_list::DebugList;
pub use debug_map::DebugMap;
pub use debug_set::DebugSet;
pub use debug_struct::DebugStruct;
pub use debug_tuple::DebugTuple;
pub use debug_tuple_struct::DebugTupleStruct;
pub use formatter::pretty;
pub use formatter::ColorStr;
pub use formatter::DebugPls;
pub use formatter::DebugWith;
pub use formatter::Formatter;
pub use formatter::Str;
pub use fragment::Fragment;
pub use fragment::GroupBody;
pub use render::render;
pub use token::BreakKind;
pub use token::Config;
pub use token::GroupMode;
pub use token::StructuralError;
pub use token::Token;
