//! Document storage and text access for an interactive text editor.
//!
//! A document is held as a sequence of pieces, each a window into an
//! append-only byte buffer. On top of the pieces sit a facade that maps byte
//! offsets to line/column positions, a bidirectional line cursor, and a
//! text-encoding engine that turns file bytes into the internal UTF-8 form
//! and back again.

pub mod buffer;
pub mod encoding;
pub mod line_iterator;
pub mod lines;
pub mod piece_tree;
mod treap;
pub mod text_buffer;
pub mod unicode;
