//! Mathematical model of a document's text and of the four ways to address a
//! location in it: characters, UTF-8 bytes, UTF-16 code units and lines.
use vstd::prelude::*;

verus! {

/// Number of bytes that `c` occupies in UTF-8.
pub open spec fn utf8_width(c: char) -> nat {
    let v = c as u32;
    if v < 0x80 {
        1
    } else if v < 0x800 {
        2
    } else if v < 0x10000 {
        3
    } else {
        4
    }
}

/// Number of code units that `c` occupies in UTF-16.
pub open spec fn utf16_width(c: char) -> nat {
    if (c as u32) < 0x10000 {
        1
    } else {
        2
    }
}

/// UTF-8 length of the first `n` characters of `s`.
pub open spec fn bytes_before(s: Seq<char>, n: nat) -> nat
    decreases s.len(),
{
    if n == 0 || s.len() == 0 {
        0
    } else {
        utf8_width(s[0]) + bytes_before(s.drop_first(), (n - 1) as nat)
    }
}

/// UTF-16 length of the first `n` characters of `s`.
pub open spec fn units_before(s: Seq<char>, n: nat) -> nat
    decreases s.len(),
{
    if n == 0 || s.len() == 0 {
        0
    } else {
        utf16_width(s[0]) + units_before(s.drop_first(), (n - 1) as nat)
    }
}

/// Number of line feeds among the first `n` characters of `s`.
pub open spec fn breaks_before(s: Seq<char>, n: nat) -> nat
    decreases s.len(),
{
    if n == 0 || s.len() == 0 {
        0
    } else {
        (if s[0] == '\n' { 1nat } else { 0nat }) + breaks_before(s.drop_first(), (n - 1) as nat)
    }
}

/// Total UTF-8 length of `s`.
pub open spec fn byte_len(s: Seq<char>) -> nat {
    bytes_before(s, s.len())
}

/// Total UTF-16 length of `s`.
pub open spec fn unit_len(s: Seq<char>) -> nat {
    units_before(s, s.len())
}

/// Number of lines of `s`: one more than its line feeds.
pub open spec fn line_count(s: Seq<char>) -> nat {
    breaks_before(s, s.len()) + 1
}

/// Index of the character that holds byte `b` (the length of `s` when `b` is
/// at or past the end).
pub open spec fn char_at_byte(s: Seq<char>, b: nat) -> nat
    decreases s.len(),
{
    if s.len() == 0 {
        0
    } else if b < utf8_width(s[0]) {
        0
    } else {
        1 + char_at_byte(s.drop_first(), (b - utf8_width(s[0])) as nat)
    }
}

/// Index of the character that holds UTF-16 code unit `u` (the length of `s`
/// when `u` is at or past the end).
pub open spec fn char_at_unit(s: Seq<char>, u: nat) -> nat
    decreases s.len(),
{
    if s.len() == 0 {
        0
    } else if u < utf16_width(s[0]) {
        0
    } else {
        1 + char_at_unit(s.drop_first(), (u - utf16_width(s[0])) as nat)
    }
}

/// Index of the first character of line `l`: just after the `l`-th line feed,
/// and the length of `s` for the line one past the last.
pub open spec fn line_start(s: Seq<char>, l: nat) -> nat
    decreases s.len(),
{
    if l == 0 || s.len() == 0 {
        0
    } else if s[0] == '\n' {
        1 + line_start(s.drop_first(), (l - 1) as nat)
    } else {
        1 + line_start(s.drop_first(), l)
    }
}

/// Whether byte offset `b` falls on the boundary between two characters (or
/// at either end) of `s`.
pub open spec fn is_char_boundary_at(s: Seq<char>, b: nat) -> bool {
    b <= byte_len(s) && bytes_before(s, char_at_byte(s, b)) == b
}

/// Line that holds byte `b`.
pub open spec fn line_of_byte(s: Seq<char>, b: nat) -> nat {
    breaks_before(s, char_at_byte(s, b))
}

/// UTF-16 code units from the start of the line that holds byte `b` up to the
/// character that holds it.
pub open spec fn units_into_line(s: Seq<char>, b: nat) -> int {
    units_before(s, char_at_byte(s, b)) - units_before(s, line_start(s, line_of_byte(s, b)))
}

/// Bytes from the start of the line that holds byte `b` up to `b`.
pub open spec fn bytes_into_line(s: Seq<char>, b: nat) -> int {
    b - bytes_before(s, line_start(s, line_of_byte(s, b)))
}

pub proof fn lemma_width_bounds(c: char)
    ensures
        1 <= utf16_width(c) <= utf8_width(c) <= 4,
        utf8_width(c) == 4 <==> utf16_width(c) == 2,
{
}

pub proof fn lemma_prefix_bounds(s: Seq<char>, n: nat)
    ensures
        breaks_before(s, n) <= units_before(s, n) <= bytes_before(s, n),
        n <= s.len() ==> n <= units_before(s, n),
        n >= s.len() ==> bytes_before(s, n) == byte_len(s) && units_before(s, n) == unit_len(s)
            && breaks_before(s, n) == breaks_before(s, s.len()),
    decreases s.len(),
{
    if n > 0 && s.len() > 0 {
        lemma_width_bounds(s[0]);
        lemma_prefix_bounds(s.drop_first(), (n - 1) as nat);
        lemma_prefix_bounds(s.drop_first(), (s.len() - 1) as nat);
    }
}

pub proof fn lemma_prefix_monotone(s: Seq<char>, m: nat, n: nat)
    requires
        m <= n,
    ensures
        bytes_before(s, m) <= bytes_before(s, n),
        units_before(s, m) <= units_before(s, n),
        breaks_before(s, m) <= breaks_before(s, n),
        m < n && m < s.len() ==> bytes_before(s, m) < bytes_before(s, n) && units_before(s, m)
            < units_before(s, n),
    decreases s.len(),
{
    if s.len() > 0 && m > 0 {
        lemma_prefix_monotone(s.drop_first(), (m - 1) as nat, (n - 1) as nat);
    } else if s.len() > 0 && n > 0 {
        lemma_width_bounds(s[0]);
    }
}

pub proof fn lemma_char_at_byte(s: Seq<char>, b: nat)
    requires
        b <= byte_len(s),
    ensures
        char_at_byte(s, b) <= s.len(),
        bytes_before(s, char_at_byte(s, b)) <= b,
        char_at_byte(s, b) < s.len() ==> b < bytes_before(s, char_at_byte(s, b) + 1),
        char_at_byte(s, b) == s.len() ==> b == byte_len(s),
    decreases s.len(),
{
    if s.len() > 0 && b >= utf8_width(s[0]) {
        lemma_char_at_byte(s.drop_first(), (b - utf8_width(s[0])) as nat);
    }
}

pub proof fn lemma_char_at_unit(s: Seq<char>, u: nat)
    requires
        u <= unit_len(s),
    ensures
        char_at_unit(s, u) <= s.len(),
        units_before(s, char_at_unit(s, u)) <= u,
        char_at_unit(s, u) < s.len() ==> u < units_before(s, char_at_unit(s, u) + 1),
    decreases s.len(),
{
    if s.len() > 0 && u >= utf16_width(s[0]) {
        lemma_char_at_unit(s.drop_first(), (u - utf16_width(s[0])) as nat);
    }
}

/// The character found at the UTF-16 offset of character `c` is `c` itself.
pub proof fn lemma_char_at_unit_exact(s: Seq<char>, c: nat)
    requires
        c <= s.len(),
    ensures
        char_at_unit(s, units_before(s, c)) == c,
    decreases s.len(),
{
    if s.len() > 0 && c > 0 {
        lemma_width_bounds(s[0]);
        lemma_char_at_unit_exact(s.drop_first(), (c - 1) as nat);
    }
}

/// The character found at the UTF-16 offset `units_before(s, c) + x` is at
/// least `c`.
pub proof fn lemma_char_at_unit_from(s: Seq<char>, c: nat, x: nat)
    requires
        c <= s.len(),
    ensures
        c <= char_at_unit(s, units_before(s, c) + x),
    decreases s.len(),
{
    if s.len() > 0 && c > 0 {
        lemma_width_bounds(s[0]);
        lemma_char_at_unit_from(s.drop_first(), (c - 1) as nat, x);
    }
}

pub proof fn lemma_char_at_byte_monotone(s: Seq<char>, a: nat, b: nat)
    requires
        a <= b,
    ensures
        char_at_byte(s, a) <= char_at_byte(s, b),
    decreases s.len(),
{
    if s.len() > 0 && a >= utf8_width(s[0]) {
        lemma_char_at_byte_monotone(
            s.drop_first(),
            (a - utf8_width(s[0])) as nat,
            (b - utf8_width(s[0])) as nat,
        );
    }
}

/// The line that holds character `c` starts at or before `c`.
pub proof fn lemma_line_start_before(s: Seq<char>, c: nat)
    requires
        c <= s.len(),
    ensures
        line_start(s, breaks_before(s, c)) <= c,
    decreases s.len(),
{
    if s.len() > 0 && c > 0 {
        lemma_line_start_before(s.drop_first(), (c - 1) as nat);
    }
}

pub proof fn lemma_line_start_bound(s: Seq<char>, l: nat)
    ensures
        line_start(s, l) <= s.len(),
    decreases s.len(),
{
    if l > 0 && s.len() > 0 {
        if s[0] == '\n' {
            lemma_line_start_bound(s.drop_first(), (l - 1) as nat);
        } else {
            lemma_line_start_bound(s.drop_first(), l);
        }
    }
}

/// The four coordinates of a byte offset never decrease as the offset grows:
/// its character, its UTF-16 offset and its line.
pub proof fn lemma_positions_monotone(s: Seq<char>, b1: nat, b2: nat)
    requires
        b1 < b2,
    ensures
        char_at_byte(s, b1) <= char_at_byte(s, b2),
        units_before(s, char_at_byte(s, b1)) <= units_before(s, char_at_byte(s, b2)),
        line_of_byte(s, b1) <= line_of_byte(s, b2),
{
    lemma_char_at_byte_monotone(s, b1, b2);
    lemma_prefix_monotone(s, char_at_byte(s, b1), char_at_byte(s, b2));
}

/// Stepping over a character outside the Basic Multilingual Plane advances
/// the character offset by one, the UTF-16 offset by two and the byte offset
/// by four.
pub proof fn lemma_supplementary_step(s: Seq<char>, c: nat)
    requires
        c < s.len(),
        s[c as int] as u32 >= 0x10000,
    ensures
        bytes_before(s, c + 1) == bytes_before(s, c) + 4,
        units_before(s, c + 1) == units_before(s, c) + 2,
        char_at_byte(s, bytes_before(s, c + 1)) == c + 1,
        char_at_unit(s, units_before(s, c + 1)) == c + 1,
    decreases s.len(),
{
    lemma_char_at_unit_exact(s, c + 1);
    lemma_char_at_byte_exact(s, c + 1);
    lemma_step(s, c);
}

pub proof fn lemma_step(s: Seq<char>, c: nat)
    requires
        c < s.len(),
    ensures
        bytes_before(s, c + 1) == bytes_before(s, c) + utf8_width(s[c as int]),
        units_before(s, c + 1) == units_before(s, c) + utf16_width(s[c as int]),
        breaks_before(s, c + 1) == breaks_before(s, c) + (if s[c as int] == '\n' { 1nat } else { 0nat }),
    decreases s.len(),
{
    if c > 0 {
        assert(s.drop_first()[c - 1] == s[c as int]);
        lemma_step(s.drop_first(), (c - 1) as nat);
    } else {
        assert(bytes_before(s.drop_first(), 0) == 0);
        assert(units_before(s.drop_first(), 0) == 0);
        assert(breaks_before(s.drop_first(), 0) == 0);
    }
}

/// The character found at the byte offset of character `c` is `c` itself.
pub proof fn lemma_char_at_byte_exact(s: Seq<char>, c: nat)
    requires
        c <= s.len(),
    ensures
        char_at_byte(s, bytes_before(s, c)) == c,
        is_char_boundary_at(s, bytes_before(s, c)),
    decreases s.len(),
{
    lemma_prefix_monotone(s, c, s.len());
    if s.len() > 0 && c > 0 {
        lemma_width_bounds(s[0]);
        lemma_char_at_byte_exact(s.drop_first(), (c - 1) as nat);
    }
}

/// Prefix lengths past the end of `a` in `a + b` add up.
pub proof fn lemma_concat_prefix(a: Seq<char>, b: Seq<char>, m: nat)
    ensures
        bytes_before(a + b, a.len() + m) == byte_len(a) + bytes_before(b, m),
        breaks_before(a + b, a.len() + m) == breaks_before(a, a.len()) + breaks_before(b, m),
    decreases a.len(),
{
    if a.len() == 0 {
        assert(a + b =~= b);
    } else {
        assert((a + b).drop_first() =~= a.drop_first() + b);
        assert((a + b)[0] == a[0]);
        lemma_concat_prefix(a.drop_first(), b, m);
    }
}

/// Prefix lengths within `a` are the same in `a + b`.
pub proof fn lemma_concat_prefix_inside(a: Seq<char>, b: Seq<char>, n: nat)
    requires
        n <= a.len(),
    ensures
        bytes_before(a + b, n) == bytes_before(a, n),
        breaks_before(a + b, n) == breaks_before(a, n),
    decreases a.len(),
{
    if a.len() > 0 && n > 0 {
        assert((a + b).drop_first() =~= a.drop_first() + b);
        assert((a + b)[0] == a[0]);
        lemma_concat_prefix_inside(a.drop_first(), b, (n - 1) as nat);
    }
}

/// In `a + b`, the byte just past `a` belongs to the character just past `a`.
pub proof fn lemma_char_at_byte_concat(a: Seq<char>, b: Seq<char>)
    ensures
        char_at_byte(a + b, byte_len(a)) == a.len(),
    decreases a.len(),
{
    if a.len() == 0 {
        assert(a + b =~= b);
        if b.len() > 0 {
            lemma_width_bounds(b[0]);
        }
    } else {
        assert((a + b).drop_first() =~= a.drop_first() + b);
        assert((a + b)[0] == a[0]);
        lemma_char_at_byte_concat(a.drop_first(), b);
    }
}

/// Line starts in `a + b`: the last line of `a` starts where it does in `a`,
/// and the lines after it start where they do in `b`, shifted by `a`.
pub proof fn lemma_line_start_concat(a: Seq<char>, b: Seq<char>, k: nat)
    ensures
        k == 0 ==> line_start(a + b, breaks_before(a, a.len())) == line_start(
            a,
            breaks_before(a, a.len()),
        ),
        k > 0 ==> line_start(a + b, breaks_before(a, a.len()) + k) == a.len() + line_start(b, k),
    decreases a.len(),
{
    if a.len() == 0 {
        assert(a + b =~= b);
    } else {
        assert((a + b).drop_first() =~= a.drop_first() + b);
        assert((a + b)[0] == a[0]);
        lemma_line_start_concat(a.drop_first(), b, k);
    }
}

} // verus!
