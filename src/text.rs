//! Records exchanged with an incremental parser: points, ranges and edits,
//! and the composite position that ties the four coordinates together.
use vstd::prelude::*;

verus! {

/// A location as a parser addresses it: a line and a byte column in it.
#[derive(Clone, Copy, Debug, PartialEq, Eq, Structural)]
pub struct Point {
    pub row: u32,
    pub column: u32,
}

/// A span of a document, by bytes and by points.
#[derive(Clone, Copy, Debug, PartialEq, Eq, Structural)]
pub struct SyntaxRange {
    pub start_byte: u32,
    pub end_byte: u32,
    pub start_point: Point,
    pub end_point: Point,
}

/// What a parser needs to know of an edit to re-parse incrementally: where it
/// starts, where the replaced text ended and where the new text ends.
#[derive(Clone, Copy, Debug, PartialEq, Eq, Structural)]
pub struct InputEdit {
    pub start_byte: u32,
    pub old_end_byte: u32,
    pub new_end_byte: u32,
    pub start_position: Point,
    pub old_end_position: Point,
    pub new_end_position: Point,
}

/// One location of a document in four coordinates: characters, bytes and
/// UTF-16 code units from the start, and a (line, byte column) point.
#[derive(Clone, Copy, Debug, PartialEq, Eq, Structural)]
pub struct TextPosition {
    pub char: u32,
    pub byte: u32,
    pub code: u32,
    pub point: Point,
}

/// The one error of these conversions: a value does not fit in 32 bits.
#[derive(Clone, Copy, Debug, PartialEq, Eq, Structural)]
pub enum ConversionError {
    Overflow,
}

/// An edit ready to be applied to a document: the parser's view of it, the
/// characters it replaces, and the text that replaces them.
#[derive(Clone, Debug, PartialEq, Eq)]
pub struct TextEdit<'a> {
    pub input_edit: InputEdit,
    pub start_char_idx: usize,
    pub end_char_idx: usize,
    pub text: &'a str,
}

impl<'a> TextEdit<'a> {
    /// The span that the new text occupies once the edit is applied.
    pub fn range(&self) -> (r: SyntaxRange)
        ensures
            r == (SyntaxRange {
                start_byte: self.input_edit.start_byte,
                end_byte: self.input_edit.new_end_byte,
                start_point: self.input_edit.start_position,
                end_point: self.input_edit.new_end_position,
            }),
    {
        let start_byte = self.input_edit.start_byte;
        let end_byte = self.input_edit.new_end_byte;
        let start_point = self.input_edit.start_position;
        let end_point = self.input_edit.new_end_position;
        SyntaxRange { start_byte, end_byte, start_point, end_point }
    }
}

} // verus!
