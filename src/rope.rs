//! The document buffer (a `ropey::Rope`) and the conversions between editor
//! protocol positions, parser points and the buffer's own indices.
use crate::encoding::{
    breaks_before, byte_len, bytes_before, char_at_byte, char_at_unit, is_char_boundary_at,
    lemma_char_at_byte, lemma_char_at_byte_exact, lemma_char_at_byte_monotone, lemma_char_at_unit,
    lemma_char_at_unit_exact, lemma_char_at_unit_from, lemma_line_start_bound, lemma_line_start_before, lemma_prefix_bounds,
    lemma_prefix_monotone, line_count, line_of_byte, line_start, unit_len, units_before,
    units_into_line, bytes_into_line, lemma_concat_prefix, lemma_concat_prefix_inside,
    lemma_char_at_byte_concat, lemma_line_start_concat, lemma_step, lemma_supplementary_step,
};
use crate::text::{ConversionError, InputEdit, Point, SyntaxRange, TextEdit, TextPosition};
use crate::walker::ChunkWalker;
use ropey::Rope;
use vstd::prelude::*;

verus! {

#[verifier::external_type_specification]
#[verifier::external_body]
pub struct ExRope(ropey::Rope);

#[verifier::external_type_specification]
pub struct ExPosition(lsp_types::Position);

#[verifier::external_type_specification]
pub struct ExRange(lsp_types::Range);

#[verifier::external_type_specification]
pub struct ExContentChange(lsp_types::TextDocumentContentChangeEvent);

/// The characters that a rope holds.
pub uninterp spec fn rope_text(r: Rope) -> Seq<char>;

/// Relies on `Rope::from_str`: the rope holds the characters of `s`.
#[verifier::external_body]
fn rope_from_str(s: &str) -> (r: Rope)
    ensures
        rope_text(r) == s@,
{
    Rope::from_str(s)
}

/// Relies on `Rope::len_bytes`: the UTF-8 length of the text.
#[verifier::external_body]
pub(crate) fn rope_len_bytes(r: &Rope) -> (n: usize)
    ensures
        n == byte_len(rope_text(*r)),
{
    r.len_bytes()
}

/// Relies on `Rope::len_lines`: one more than the number of line feeds (the
/// crate is built without its `cr_lines` and `unicode_lines` features).
#[verifier::external_body]
fn rope_len_lines(r: &Rope) -> (n: usize)
    ensures
        n == line_count(rope_text(*r)),
{
    r.len_lines()
}

/// Relies on `Rope::byte_to_char`: the index of the character that holds the
/// byte; it panics past the end.
#[verifier::external_body]
fn rope_byte_to_char(r: &Rope, byte_idx: usize) -> (c: usize)
    requires
        byte_idx <= byte_len(rope_text(*r)),
    ensures
        c == char_at_byte(rope_text(*r), byte_idx as nat),
{
    r.byte_to_char(byte_idx)
}

/// Relies on `Rope::byte_to_line`: the number of line feeds before the byte;
/// it panics past the end.
#[verifier::external_body]
fn rope_byte_to_line(r: &Rope, byte_idx: usize) -> (l: usize)
    requires
        byte_idx <= byte_len(rope_text(*r)),
    ensures
        l == line_of_byte(rope_text(*r), byte_idx as nat),
{
    r.byte_to_line(byte_idx)
}

/// Relies on `Rope::char_to_byte`: the UTF-8 length of the characters before
/// the index; it panics past the end.
#[verifier::external_body]
fn rope_char_to_byte(r: &Rope, char_idx: usize) -> (b: usize)
    requires
        char_idx <= rope_text(*r).len(),
    ensures
        b == bytes_before(rope_text(*r), char_idx as nat),
{
    r.char_to_byte(char_idx)
}

/// Relies on `Rope::char_to_utf16_cu`: the UTF-16 length of the characters
/// before the index; it panics past the end.
#[verifier::external_body]
fn rope_char_to_utf16_cu(r: &Rope, char_idx: usize) -> (u: usize)
    requires
        char_idx <= rope_text(*r).len(),
    ensures
        u == units_before(rope_text(*r), char_idx as nat),
{
    r.char_to_utf16_cu(char_idx)
}

/// Relies on `Rope::utf16_cu_to_char`: the index of the character that holds
/// the code unit; it panics past the end.
#[verifier::external_body]
fn rope_utf16_cu_to_char(r: &Rope, utf16_cu_idx: usize) -> (c: usize)
    requires
        utf16_cu_idx <= unit_len(rope_text(*r)),
    ensures
        c == char_at_unit(rope_text(*r), utf16_cu_idx as nat),
{
    r.utf16_cu_to_char(utf16_cu_idx)
}

/// Relies on `Rope::line_to_char`: the index of the line's first character;
/// it panics past one line beyond the last.
#[verifier::external_body]
fn rope_line_to_char(r: &Rope, line_idx: usize) -> (c: usize)
    requires
        line_idx <= line_count(rope_text(*r)),
    ensures
        c == line_start(rope_text(*r), line_idx as nat),
{
    r.line_to_char(line_idx)
}

/// Relies on `Rope::line_to_byte`: the byte offset of the line's first
/// character; it panics past one line beyond the last.
#[verifier::external_body]
fn rope_line_to_byte(r: &Rope, line_idx: usize) -> (b: usize)
    requires
        line_idx <= line_count(rope_text(*r)),
    ensures
        b == bytes_before(rope_text(*r), line_start(rope_text(*r), line_idx as nat)),
{
    r.line_to_byte(line_idx)
}

/// Relies on `Rope::remove`: the characters of the range leave the text; it
/// panics on a reversed or out-of-bounds range.
#[verifier::external_body]
fn rope_remove(r: &mut Rope, start: usize, end: usize)
    requires
        start <= end <= rope_text(*old(r)).len(),
    ensures
        rope_text(*final(r)) == rope_text(*old(r)).take(start as int) + rope_text(*old(r)).skip(
            end as int,
        ),
{
    r.remove(start..end)
}

/// Relies on `Rope::insert`: the text goes in before the character at the
/// index; it panics past the end.
#[verifier::external_body]
fn rope_insert(r: &mut Rope, char_idx: usize, text: &str)
    requires
        char_idx <= rope_text(*old(r)).len(),
    ensures
        rope_text(*final(r)) == rope_text(*old(r)).take(char_idx as int) + text@ + rope_text(
            *old(r),
        ).skip(char_idx as int),
{
    r.insert(char_idx, text)
}

/// Relies on `Rope::slice` and `String::from` on the slice: the characters of
/// the range; it panics on a reversed or out-of-bounds range.
#[verifier::external_body]
fn rope_slice_string(r: &Rope, start: usize, end: usize) -> (s: String)
    requires
        start <= end <= rope_text(*r).len(),
    ensures
        s@ == rope_text(*r).subrange(start as int, end as int),
{
    String::from(r.slice(start..end))
}

/// How a rope cuts its text into chunks, in order.
pub uninterp spec fn rope_chunk_seq(r: Rope) -> Seq<Seq<u8>>;

/// Relies on `Rope::chunks`: the rope's chunks, in order; together they make
/// up the text's UTF-8 bytes.
#[verifier::external_body]
pub(crate) fn rope_chunks(r: &Rope) -> (cs: Vec<Vec<u8>>)
    ensures
        cs@.map_values(|c: Vec<u8>| c@) == rope_chunk_seq(*r),
        cs@.map_values(|c: Vec<u8>| c@).flatten().len() == byte_len(rope_text(*r)),
        vstd::utf8::decode_utf8(cs@.map_values(|c: Vec<u8>| c@).flatten()) == rope_text(*r),
{
    r.chunks().map(|c| c.as_bytes().to_vec()).collect()
}

/// UTF-16 offset from the start of the document of protocol position
/// (`line`, `character`).
pub open spec fn code_of(s: Seq<char>, line: u32, character: u32) -> nat {
    units_before(s, line_start(s, line as nat)) + character as nat
}

/// Character index of protocol position (`line`, `character`).
pub open spec fn char_of(s: Seq<char>, line: u32, character: u32) -> nat {
    char_at_unit(s, code_of(s, line, character))
}

/// Byte offset of protocol position (`line`, `character`).
pub open spec fn byte_of(s: Seq<char>, line: u32, character: u32) -> nat {
    bytes_before(s, char_of(s, line, character))
}

/// Byte column, within its line, of protocol position (`line`, `character`).
pub open spec fn column_of(s: Seq<char>, line: u32, character: u32) -> int {
    byte_of(s, line, character) - bytes_before(s, line_start(s, line as nat))
}

/// A protocol position that lies in the document: its line is at most one
/// past the last and its UTF-16 offset is at most the document's length.
pub open spec fn valid_position(s: Seq<char>, p: lsp_types::Position) -> bool {
    p.line <= line_count(s) && code_of(s, p.line, p.character) <= unit_len(s)
}

/// Whether the coordinates of protocol position `p` fit in 32 bits.
pub open spec fn position_fits(s: Seq<char>, p: lsp_types::Position) -> bool {
    char_of(s, p.line, p.character) <= u32::MAX && byte_of(s, p.line, p.character) <= u32::MAX
        && code_of(s, p.line, p.character) <= u32::MAX
}

/// The composite position of protocol position `p`.
pub open spec fn core_position(s: Seq<char>, p: lsp_types::Position) -> TextPosition {
    TextPosition {
        char: char_of(s, p.line, p.character) as u32,
        byte: byte_of(s, p.line, p.character) as u32,
        code: code_of(s, p.line, p.character) as u32,
        point: Point { row: p.line, column: column_of(s, p.line, p.character) as u32 },
    }
}

/// The protocol position of byte offset `b`: its line, and the UTF-16 code
/// units from the line's start.
pub open spec fn protocol_position(s: Seq<char>, b: nat) -> lsp_types::Position {
    lsp_types::Position { line: line_of_byte(s, b) as u32, character: units_into_line(s, b) as u32 }
}

/// The text after replacing characters `start .. end` of `s` by `text`.
pub open spec fn edited(s: Seq<char>, start: int, end: int, text: Seq<char>) -> Seq<char> {
    s.take(start) + text + s.skip(end)
}

/// Row and byte column, unbounded, of the point that `text` ends at when it
/// is written from the point (`row`, `column`) on.
pub open spec fn point_after(row: int, column: int, text: Seq<char>) -> (int, int) {
    let breaks = breaks_before(text, text.len());
    if breaks == 0 {
        (row, column + byte_len(text))
    } else {
        (row + breaks, byte_len(text) - bytes_before(text, line_start(text, breaks)))
    }
}

/// The protocol positions that a change event replaces the text between: its
/// range, or the whole document when it has none.
pub open spec fn change_bounds(s: Seq<char>, change: lsp_types::TextDocumentContentChangeEvent) -> (
    lsp_types::Position,
    lsp_types::Position,
) {
    match change.range {
        Some(r) => (r.start, r.end),
        None => (protocol_position(s, 0), protocol_position(s, byte_len(s))),
    }
}

/// Whether every value of the edit that `change` makes fits in 32 bits.
pub open spec fn edit_fits(s: Seq<char>, change: lsp_types::TextDocumentContentChangeEvent) -> bool {
    let (start, end) = change_bounds(s, change);
    let after = point_after(
        core_position(s, start).point.row as int,
        core_position(s, start).point.column as int,
        change.text@,
    );
    &&& (change.range is None ==> byte_len(s) <= u32::MAX)
    &&& position_fits(s, start)
    &&& position_fits(s, end)
    &&& core_position(s, start).byte + byte_len(change.text@) <= u32::MAX
    &&& after.0 <= u32::MAX
    &&& after.1 <= u32::MAX
}

/// The round trip: a byte offset on a character boundary, taken to its
/// protocol position and back, is the same offset (and the same character).
pub proof fn lemma_round_trip(s: Seq<char>, b: nat)
    requires
        is_char_boundary_at(s, b),
        byte_len(s) <= u32::MAX,
    ensures
        valid_position(s, protocol_position(s, b)),
        position_fits(s, protocol_position(s, b)),
        byte_of(s, protocol_position(s, b).line, protocol_position(s, b).character) == b,
        char_of(s, protocol_position(s, b).line, protocol_position(s, b).character)
            == char_at_byte(s, b),
        code_of(s, protocol_position(s, b).line, protocol_position(s, b).character)
            == units_before(s, char_at_byte(s, b)),
{
    let c = char_at_byte(s, b);
    lemma_char_at_byte(s, b);
    lemma_line_start_before(s, c);
    let l = breaks_before(s, c);
    let ls = line_start(s, l);
    lemma_prefix_monotone(s, ls, c);
    lemma_prefix_monotone(s, c, s.len());
    lemma_prefix_bounds(s, c);
    lemma_prefix_bounds(s, s.len());
    let p = protocol_position(s, b);
    assert(p.line == l);
    assert(p.character == units_before(s, c) - units_before(s, ls));
    assert(code_of(s, p.line, p.character) == units_before(s, c));
    lemma_char_at_unit_exact(s, c);
}

/// Where an edit's new text ends: replacing characters `c .. e` of `s` by
/// `x`, the byte just past `x` in the edited text has the point that `x`
/// reaches when written from the point of the edit's start in `s`.
pub proof fn lemma_new_end_point(s: Seq<char>, c: nat, e: nat, x: Seq<char>)
    requires
        c <= e <= s.len(),
    ensures
        ({
            let t = edited(s, c as int, e as int, x);
            let start = bytes_before(s, c);
            let end = start + byte_len(x);
            let after = point_after(
                line_of_byte(s, start) as int,
                bytes_into_line(s, start),
                x,
            );
            line_of_byte(t, end) == after.0 && bytes_into_line(t, end) == after.1
        }),
{
    let p = s.take(c as int);
    let r = s.skip(c as int);
    let a = p + x;
    let rest = s.skip(e as int);
    let t = edited(s, c as int, e as int, x);
    assert(s =~= p + r);
    assert(t =~= a + rest);
    lemma_concat_prefix_inside(p, r, c);
    lemma_concat_prefix(p, x, x.len());
    lemma_char_at_byte_concat(a, rest);
    lemma_concat_prefix_inside(a, rest, a.len());
    lemma_char_at_byte_exact(s, c);
    let lp = line_start(p, breaks_before(p, p.len()));
    lemma_line_start_concat(p, r, 0);
    lemma_line_start_bound(p, breaks_before(p, p.len()));
    lemma_concat_prefix_inside(p, r, lp);
    lemma_line_start_concat(a, rest, 0);
    let k = breaks_before(x, x.len());
    if k == 0 {
        lemma_line_start_concat(p, x, 0);
        lemma_concat_prefix_inside(a, rest, lp);
        lemma_concat_prefix_inside(p, x, lp);
    } else {
        lemma_line_start_concat(p, x, k);
        lemma_line_start_bound(x, k);
        lemma_concat_prefix_inside(a, rest, p.len() + line_start(x, k));
        lemma_concat_prefix(p, x, line_start(x, k));
    }
}

/// Protocol positions and composite positions never go back as the byte
/// offset grows: the line does not decrease, and on one line the UTF-16
/// column grows; the character, UTF-16 offset and row of the composite
/// position do not decrease.
pub proof fn lemma_protocol_positions_monotone(s: Seq<char>, b1: nat, b2: nat)
    requires
        b1 < b2,
        is_char_boundary_at(s, b1),
        is_char_boundary_at(s, b2),
        byte_len(s) <= u32::MAX,
    ensures
        protocol_position(s, b1).line <= protocol_position(s, b2).line,
        protocol_position(s, b1).line == protocol_position(s, b2).line ==> protocol_position(
            s,
            b1,
        ).character < protocol_position(s, b2).character,
        core_position(s, protocol_position(s, b1)).char <= core_position(
            s,
            protocol_position(s, b2),
        ).char,
        core_position(s, protocol_position(s, b1)).code <= core_position(
            s,
            protocol_position(s, b2),
        ).code,
        core_position(s, protocol_position(s, b1)).point.row <= core_position(
            s,
            protocol_position(s, b2),
        ).point.row,
        code_of(s, protocol_position(s, b1).line, protocol_position(s, b1).character)
            <= code_of(s, protocol_position(s, b2).line, protocol_position(s, b2).character),
{
    lemma_round_trip(s, b1);
    lemma_round_trip(s, b2);
    let c1 = char_at_byte(s, b1);
    let c2 = char_at_byte(s, b2);
    lemma_char_at_byte(s, b1);
    lemma_char_at_byte(s, b2);
    lemma_char_at_byte_monotone(s, b1, b2);
    assert(c1 < c2);
    lemma_prefix_monotone(s, c1, c2);
    lemma_prefix_monotone(s, c2, s.len());
    lemma_prefix_bounds(s, c2);
    lemma_prefix_bounds(s, s.len());
    lemma_line_start_before(s, c1);
    lemma_line_start_before(s, c2);
    lemma_prefix_monotone(s, line_start(s, breaks_before(s, c1)), c1);
    lemma_prefix_monotone(s, line_start(s, breaks_before(s, c2)), c2);
}

/// Stepping over a character outside the Basic Multilingual Plane keeps the
/// protocol line and advances the protocol column by two, while the byte
/// offset advances by four.
pub proof fn lemma_protocol_supplementary_step(s: Seq<char>, b: nat)
    requires
        is_char_boundary_at(s, b),
        char_at_byte(s, b) < s.len(),
        s[char_at_byte(s, b) as int] as u32 >= 0x10000,
        byte_len(s) <= u32::MAX,
    ensures
        is_char_boundary_at(s, b + 4),
        protocol_position(s, b + 4).line == protocol_position(s, b).line,
        protocol_position(s, b + 4).character == protocol_position(s, b).character + 2,
{
    let c = char_at_byte(s, b);
    lemma_supplementary_step(s, c);
    lemma_step(s, c);
    lemma_char_at_byte_exact(s, c + 1);
    lemma_line_start_before(s, c);
    lemma_prefix_monotone(s, line_start(s, breaks_before(s, c)), c);
    lemma_prefix_monotone(s, c + 1, s.len());
    lemma_prefix_bounds(s, c + 1);
    lemma_prefix_bounds(s, s.len());
}

/// Replacing a span by the very text it holds leaves the document unchanged.
pub proof fn lemma_identity_edit(s: Seq<char>, start: int, end: int)
    requires
        0 <= start <= end <= s.len(),
    ensures
        edited(s, start, end, s.subrange(start, end)) == s,
{
    assert(edited(s, start, end, s.subrange(start, end)) =~= s);
}

/// Conversions between editor protocol positions, parser points and the
/// indices of a document buffer, and the one path by which protocol edits
/// change it.
pub trait RopeExt: Sized {
    /// The characters of the document.
    spec fn text(&self) -> Seq<char>;

    /// How the document is cut into chunks, in order.
    spec fn chunk_seq(&self) -> Seq<Seq<u8>>;

    /// Removes characters `start_char_idx .. end_char_idx`, then inserts the
    /// edit's text where they began.
    fn apply_edit(&mut self, edit: &TextEdit)
        requires
            edit.start_char_idx <= edit.end_char_idx <= old(self).text().len(),
        ensures
            final(self).text() == edited(
                old(self).text(),
                edit.start_char_idx as int,
                edit.end_char_idx as int,
                edit.text@,
            ),
    ;

    /// The edit that a protocol change event makes: over its range, or over
    /// the whole document when it has none. The new text's end is given as it
    /// stands in the edited document. Fails when a value does not fit in 32
    /// bits.
    fn build_edit<'a>(&self, change: &'a lsp_types::TextDocumentContentChangeEvent) -> (r: Result<
        TextEdit<'a>,
        ConversionError,
    >)
        requires
            change.range matches Some(range) ==> valid_position(self.text(), range.start)
                && valid_position(self.text(), range.end),
        ensures
            r is Ok <==> edit_fits(self.text(), *change),
            r matches Ok(e) ==> {
                let (start, end) = change_bounds(self.text(), *change);
                let sp = core_position(self.text(), start);
                let ep = core_position(self.text(), end);
                let after = point_after(sp.point.row as int, sp.point.column as int, change.text@);
                &&& e.text@ == change.text@
                &&& e.start_char_idx == sp.char
                &&& e.end_char_idx == ep.char
                &&& e.input_edit.start_byte == sp.byte
                &&& e.input_edit.old_end_byte == ep.byte
                &&& e.input_edit.new_end_byte == sp.byte + byte_len(change.text@)
                &&& e.input_edit.start_position == sp.point
                &&& e.input_edit.old_end_position == ep.point
                &&& e.input_edit.new_end_position == (Point {
                    row: after.0 as u32,
                    column: after.1 as u32,
                })
            },
            change.range is None && edit_fits(self.text(), *change) ==> {
                let (start, end) = change_bounds(self.text(), *change);
                &&& core_position(self.text(), start).byte == 0
                &&& core_position(self.text(), start).char == 0
                &&& core_position(self.text(), end).byte == byte_len(self.text())
                &&& core_position(self.text(), end).char == self.text().len()
            },
    ;

    /// A chunk walker over the document's chunks, at the chunk that holds
    /// `byte_idx` (empty chunks skipped; past the last one at the end).
    fn chunk_walker(self, byte_idx: usize) -> (r: ChunkWalker)
        requires
            byte_idx <= byte_len(self.text()),
        ensures
            r.wf(),
            r.chunks_view() == self.chunk_seq(),
            r.document().len() == byte_len(self.text()),
            vstd::utf8::decode_utf8(r.document()) == self.text(),
            r.cursor_view() <= byte_idx,
            byte_idx < r.cursor_view() + r.current_len_view() || byte_idx == byte_len(self.text()),
    ;

    /// The protocol position of a byte offset: its line, and the UTF-16 code
    /// units from the line's start to the character that holds the byte.
    fn byte_to_lsp_position(&self, offset: usize) -> (r: lsp_types::Position)
        requires
            offset <= byte_len(self.text()),
            byte_len(self.text()) <= u32::MAX,
        ensures
            r == protocol_position(self.text(), offset as nat),
    ;

    /// The parser point of a byte offset: its line, and the bytes from the
    /// line's start. Fails when either does not fit in 32 bits.
    fn byte_to_tree_sitter_point(&self, offset: usize) -> (r: Result<Point, ConversionError>)
        requires
            offset <= byte_len(self.text()),
        ensures
            r is Ok <==> line_of_byte(self.text(), offset as nat) <= u32::MAX && bytes_into_line(
                self.text(),
                offset as nat,
            ) <= u32::MAX,
            r matches Ok(p) ==> p.row == line_of_byte(self.text(), offset as nat) && p.column
                == bytes_into_line(self.text(), offset as nat),
    ;

    /// The composite position of a protocol position. Fails when one of its
    /// coordinates does not fit in 32 bits.
    fn lsp_position_to_core(&self, position: lsp_types::Position) -> (r: Result<
        TextPosition,
        ConversionError,
    >)
        requires
            valid_position(self.text(), position),
        ensures
            r is Ok <==> position_fits(self.text(), position),
            r matches Ok(p) ==> p == core_position(self.text(), position),
    ;

    /// The UTF-16 offset from the document's start of a protocol position.
    /// Fails when it does not fit in 32 bits.
    fn lsp_position_to_utf16_cu(&self, position: lsp_types::Position) -> (r: Result<
        u32,
        ConversionError,
    >)
        requires
            position.line <= line_count(self.text()),
        ensures
            r is Ok <==> code_of(self.text(), position.line, position.character) <= u32::MAX,
            r matches Ok(u) ==> u == code_of(self.text(), position.line, position.character),
    ;

    /// The parser range of a protocol range. Fails when a coordinate of
    /// either end does not fit in 32 bits.
    fn lsp_range_to_tree_sitter_range(&self, range: lsp_types::Range) -> (r: Result<
        SyntaxRange,
        ConversionError,
    >)
        requires
            valid_position(self.text(), range.start),
            valid_position(self.text(), range.end),
        ensures
            r is Ok <==> position_fits(self.text(), range.start) && position_fits(
                self.text(),
                range.end,
            ),
            r matches Ok(t) ==> t == (SyntaxRange {
                start_byte: core_position(self.text(), range.start).byte,
                end_byte: core_position(self.text(), range.end).byte,
                start_point: core_position(self.text(), range.start).point,
                end_point: core_position(self.text(), range.end).point,
            }),
    ;

    /// The protocol range of a parser range.
    fn tree_sitter_range_to_lsp_range(&self, range: SyntaxRange) -> (r: lsp_types::Range)
        requires
            range.start_byte <= byte_len(self.text()),
            range.end_byte <= byte_len(self.text()),
            byte_len(self.text()) <= u32::MAX,
        ensures
            r.start == protocol_position(self.text(), range.start_byte as nat),
            r.end == protocol_position(self.text(), range.end_byte as nat),
    ;

    /// The text of a syntax node's span: the characters that hold its bytes.
    fn utf8_text_for_tree_sitter_node(&self, node: &SyntaxRange) -> (r: String)
        requires
            node.start_byte <= node.end_byte <= byte_len(self.text()),
        ensures
            r@ == self.text().subrange(
                char_at_byte(self.text(), node.start_byte as nat) as int,
                char_at_byte(self.text(), node.end_byte as nat) as int,
            ),
    ;
}

impl RopeExt for Rope {
    open spec fn text(&self) -> Seq<char> {
        rope_text(*self)
    }

    open spec fn chunk_seq(&self) -> Seq<Seq<u8>> {
        rope_chunk_seq(*self)
    }

    fn apply_edit(&mut self, edit: &TextEdit) {
        rope_remove(self, edit.start_char_idx, edit.end_char_idx);
        if !edit.text.is_empty() {
            rope_insert(self, edit.start_char_idx, edit.text);
        } else {
            assert(edit.text@ =~= Seq::<char>::empty());
        }
        proof {
            let s = rope_text(*old(self));
            let a = edit.start_char_idx as int;
            let e = edit.end_char_idx as int;
            if edit.text@.len() == 0 {
                assert(s.take(a) + edit.text@ + s.skip(e) =~= s.take(a) + s.skip(e));
            } else {
                let mid = s.take(a) + s.skip(e);
                assert(mid.take(a) =~= s.take(a));
                assert(mid.skip(a) =~= s.skip(e));
            }
        }
    }

    fn build_edit<'a>(&self, change: &'a lsp_types::TextDocumentContentChangeEvent) -> (r: Result<
        TextEdit<'a>,
        ConversionError,
    >) {
        let text = change.text.as_str();
        let range = match change.range {
            Some(range) => range,
            None => {
                let len = rope_len_bytes(self);
                if len > u32::MAX as usize {
                    return Err(ConversionError::Overflow);
                }
                proof {
                    lemma_char_at_byte_exact(rope_text(*self), 0);
                    lemma_char_at_byte_exact(rope_text(*self), rope_text(*self).len());
                    lemma_round_trip(rope_text(*self), 0);
                    lemma_round_trip(rope_text(*self), byte_len(rope_text(*self)));
                    lemma_char_at_byte(rope_text(*self), 0);
                    lemma_char_at_byte(rope_text(*self), byte_len(rope_text(*self)));
                }
                let start = self.byte_to_lsp_position(0);
                let end = self.byte_to_lsp_position(len);
                lsp_types::Range { start, end }
            },
        };
        let start = match self.lsp_position_to_core(range.start) {
            Ok(p) => p,
            Err(e) => return Err(e),
        };
        let old_end = match self.lsp_position_to_core(range.end) {
            Ok(p) => p,
            Err(e) => return Err(e),
        };
        // The new end point is read off the new text itself: it is where the
        // new end byte falls once the edit is applied (`lemma_new_end_point`).
        let inserted = rope_from_str(text);
        let text_len = rope_len_bytes(&inserted);
        if text_len > (u32::MAX - start.byte) as usize {
            return Err(ConversionError::Overflow);
        }
        let new_end_byte = start.byte + text_len as u32;
        let last_line = rope_len_lines(&inserted) - 1;
        proof {
            lemma_prefix_bounds(change.text@, change.text@.len());
        }
        let new_end_position = if last_line == 0 {
            if text_len > (u32::MAX - start.point.column) as usize {
                return Err(ConversionError::Overflow);
            }
            Point { row: start.point.row, column: start.point.column + text_len as u32 }
        } else {
            if last_line > (u32::MAX - start.point.row) as usize {
                return Err(ConversionError::Overflow);
            }
            let last_line_byte = rope_line_to_byte(&inserted, last_line);
            proof {
                lemma_line_start_bound(change.text@, last_line as nat);
                lemma_prefix_monotone(
                    change.text@,
                    line_start(change.text@, last_line as nat),
                    change.text@.len(),
                );
            }
            let column = text_len - last_line_byte;
            if column > u32::MAX as usize {
                return Err(ConversionError::Overflow);
            }
            Point { row: start.point.row + last_line as u32, column: column as u32 }
        };
        let input_edit = InputEdit {
            start_byte: start.byte,
            old_end_byte: old_end.byte,
            new_end_byte,
            start_position: start.point,
            old_end_position: old_end.point,
            new_end_position,
        };
        Ok(TextEdit {
            input_edit,
            start_char_idx: start.char as usize,
            end_char_idx: old_end.char as usize,
            text,
        })
    }

    fn chunk_walker(self, byte_idx: usize) -> (r: ChunkWalker) {
        ChunkWalker::new(self, byte_idx)
    }

    fn byte_to_lsp_position(&self, offset: usize) -> (r: lsp_types::Position) {
        let ghost s = rope_text(*self);
        proof {
            lemma_char_at_byte(s, offset as nat);
            let c = char_at_byte(s, offset as nat);
            lemma_prefix_monotone(s, c, s.len());
            lemma_line_start_before(s, c);
            lemma_prefix_monotone(s, line_start(s, breaks_before(s, c)), c);
            lemma_prefix_bounds(s, c);
        }
        let line_idx = rope_byte_to_line(self, offset);
        let line_char_idx = rope_line_to_char(self, line_idx);
        let line_utf16_cu_idx = rope_char_to_utf16_cu(self, line_char_idx);
        let char_idx = rope_byte_to_char(self, offset);
        let char_utf16_cu_idx = rope_char_to_utf16_cu(self, char_idx);
        let character = char_utf16_cu_idx - line_utf16_cu_idx;
        lsp_types::Position { line: line_idx as u32, character: character as u32 }
    }

    fn byte_to_tree_sitter_point(&self, offset: usize) -> (r: Result<Point, ConversionError>) {
        let ghost s = rope_text(*self);
        proof {
            lemma_char_at_byte(s, offset as nat);
            let c = char_at_byte(s, offset as nat);
            lemma_prefix_monotone(s, c, s.len());
            lemma_line_start_before(s, c);
            lemma_prefix_monotone(s, line_start(s, breaks_before(s, c)), c);
        }
        let line_idx = rope_byte_to_line(self, offset);
        let line_byte_idx = rope_line_to_byte(self, line_idx);
        let column = offset - line_byte_idx;
        if line_idx > u32::MAX as usize || column > u32::MAX as usize {
            return Err(ConversionError::Overflow);
        }
        Ok(Point { row: line_idx as u32, column: column as u32 })
    }

    fn lsp_position_to_core(&self, position: lsp_types::Position) -> (r: Result<
        TextPosition,
        ConversionError,
    >) {
        let ghost s = rope_text(*self);
        let row_idx = position.line as usize;
        let col_code_idx = position.character as usize;
        let row_char_idx = rope_line_to_char(self, row_idx);
        let row_byte_idx = rope_line_to_byte(self, row_idx);
        proof {
            lemma_line_start_bound(s, row_idx as nat);
        }
        let row_code_idx = rope_char_to_utf16_cu(self, row_char_idx);
        let code_idx = match row_code_idx.checked_add(col_code_idx) {
            Some(c) => c,
            None => return Err(ConversionError::Overflow),
        };
        let char_idx = rope_utf16_cu_to_char(self, code_idx);
        proof {
            lemma_char_at_unit(s, code_idx as nat);
            lemma_char_at_unit_from(s, row_char_idx as nat, col_code_idx as nat);
            lemma_prefix_monotone(s, row_char_idx as nat, char_idx as nat);
        }
        let byte_idx = rope_char_to_byte(self, char_idx);
        let col_byte_idx = byte_idx - row_byte_idx;
        if char_idx > u32::MAX as usize || byte_idx > u32::MAX as usize || code_idx > u32::MAX
            as usize {
            return Err(ConversionError::Overflow);
        }
        let point = Point { row: position.line, column: col_byte_idx as u32 };
        Ok(TextPosition {
            char: char_idx as u32,
            byte: byte_idx as u32,
            code: code_idx as u32,
            point,
        })
    }

    fn lsp_position_to_utf16_cu(&self, position: lsp_types::Position) -> (r: Result<
        u32,
        ConversionError,
    >) {
        let line_idx = position.line as usize;
        let line_char_idx = rope_line_to_char(self, line_idx);
        proof {
            lemma_line_start_bound(rope_text(*self), line_idx as nat);
        }
        let line_utf16_cu_idx = rope_char_to_utf16_cu(self, line_char_idx);
        if line_utf16_cu_idx > u32::MAX as usize {
            return Err(ConversionError::Overflow);
        }
        let line_code = line_utf16_cu_idx as u32;
        match line_code.checked_add(position.character) {
            Some(u) => Ok(u),
            None => Err(ConversionError::Overflow),
        }
    }

    fn lsp_range_to_tree_sitter_range(&self, range: lsp_types::Range) -> (r: Result<
        SyntaxRange,
        ConversionError,
    >) {
        let start = match self.lsp_position_to_core(range.start) {
            Ok(p) => p,
            Err(e) => return Err(e),
        };
        let end = match self.lsp_position_to_core(range.end) {
            Ok(p) => p,
            Err(e) => return Err(e),
        };
        Ok(SyntaxRange {
            start_byte: start.byte,
            end_byte: end.byte,
            start_point: start.point,
            end_point: end.point,
        })
    }

    fn tree_sitter_range_to_lsp_range(&self, range: SyntaxRange) -> (r: lsp_types::Range) {
        let start = self.byte_to_lsp_position(range.start_byte as usize);
        let end = self.byte_to_lsp_position(range.end_byte as usize);
        lsp_types::Range { start, end }
    }

    fn utf8_text_for_tree_sitter_node(&self, node: &SyntaxRange) -> (r: String) {
        proof {
            lemma_char_at_byte(rope_text(*self), node.start_byte as nat);
            lemma_char_at_byte(rope_text(*self), node.end_byte as nat);
            lemma_char_at_byte_monotone(
                rope_text(*self),
                node.start_byte as nat,
                node.end_byte as nat,
            );
        }
        let start = rope_byte_to_char(self, node.start_byte as usize);
        let end = rope_byte_to_char(self, node.end_byte as usize);
        rope_slice_string(self, start, end)
    }
}

} // verus!
