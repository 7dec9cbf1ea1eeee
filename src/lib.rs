//! Conversion between the coordinate systems of an editable text document
//! (characters, UTF-8 bytes, UTF-16 code units and lines) and a chunk-by-chunk
//! reader of its bytes for an incremental parser.
pub mod encoding;
pub mod rope;
pub mod text;
pub mod walker;

pub use text::{ConversionError, InputEdit, Point, SyntaxRange, TextEdit, TextPosition};
pub use rope::RopeExt;
pub use walker::ChunkWalker;
