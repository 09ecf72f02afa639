//! UTF-16 positions and conversion of columns for LSP compatibility.
//!
//! The Language Server Protocol counts columns in UTF-16 code units, while
//! positions here count characters (Unicode scalar values).
use vstd::prelude::*;
use crate::chars::chars_of;
use crate::position::Position;

verus! {

/// An LSP-compatible position using UTF-16 character offsets.
#[derive(Debug, Clone, Copy, PartialEq, Eq, Structural, Hash)]
pub struct Utf16Position {
    /// Zero-based line number.
    pub line: u32,
    /// Zero-based UTF-16 code unit offset within the line.
    pub character: u32,
}

impl Utf16Position {
    /// Creates a new UTF-16 position.
    pub fn new(line: u32, character: u32) -> (p: Self)
        ensures
            p.line == line,
            p.character == character,
    {
        Utf16Position { line, character }
    }
}

/// The number of UTF-16 code units that encode `c`: one inside the Basic
/// Multilingual Plane, two (a surrogate pair) above U+FFFF.
pub open spec fn utf16_width(c: char) -> nat {
    if (c as u32) < 0x10000 { 1 } else { 2 }
}

/// The number of UTF-16 code units that encode `s`.
pub open spec fn utf16_len(s: Seq<char>) -> nat
    decreases s.len(),
{
    if s.len() == 0 {
        0
    } else {
        utf16_len(s.drop_last()) + utf16_width(s.last())
    }
}

/// The UTF-16 length of the first `n` characters of `s` (of all of them if
/// `s` is shorter).
pub open spec fn utf16_prefix_len(s: Seq<char>, n: int) -> nat {
    utf16_len(s.take(if n <= s.len() { n } else { s.len() as int }))
}

/// The characters of `s` above U+FFFF: those that UTF-16 writes as a
/// surrogate pair.
pub open spec fn supplementary(s: Seq<char>) -> Seq<char> {
    s.filter(|c: char| (c as u32) > 0xFFFF)
}

/// A text takes one UTF-16 code unit per character, and one more for each
/// character above U+FFFF.
pub proof fn lemma_utf16_len_counts(s: Seq<char>)
    ensures
        utf16_len(s) == s.len() + supplementary(s).len(),
    decreases s.len(),
{
    reveal(Seq::filter);
    if s.len() > 0 {
        lemma_utf16_len_counts(s.drop_last());
    }
}

/// Appending a character adds one UTF-16 column, or two for a character
/// above U+FFFF.
pub proof fn lemma_utf16_columns_append(s: Seq<char>, c: char)
    ensures
        utf16_prefix_len(s.push(c), s.len() + 1int)
            == utf16_prefix_len(s, s.len() as int) + (if (c as u32) > 0xFFFF { 2int } else { 1int }),
{
    lemma_utf16_len_counts(s);
    lemma_utf16_len_counts(s.push(c));
    reveal(Seq::filter);
    assert(s.push(c).take(s.len() + 1int) =~= s.push(c));
    assert(s.take(s.len() as int) =~= s);
    assert(s.push(c).drop_last() =~= s);
}

/// `char::len_utf16`.
fn char_len_utf16(c: char) -> (n: usize)
    ensures
        n == utf16_width(c),
{
    if (c as u32) < 0x10000 { 1 } else { 2 }
}

/// The UTF-16 length of a prefix grows by one or two per character.
pub proof fn lemma_utf16_prefix_step(s: Seq<char>, i: int)
    requires
        0 <= i < s.len(),
    ensures
        utf16_len(s.take(i + 1)) == utf16_len(s.take(i)) + utf16_width(s[i]),
        utf16_len(s.take(i)) + 1 <= utf16_len(s.take(i + 1)) <= utf16_len(s.take(i)) + 2,
{
    assert(s.take(i + 1).drop_last() =~= s.take(i));
}

/// Longer prefixes take more UTF-16 code units: at least one per character.
pub proof fn lemma_utf16_prefix_grows(s: Seq<char>, i: int, j: int)
    requires
        0 <= i <= j <= s.len(),
    ensures
        utf16_len(s.take(i)) + (j - i) <= utf16_len(s.take(j)),
        utf16_len(s.take(j)) <= utf16_len(s.take(i)) + 2 * (j - i),
    decreases j - i,
{
    if i < j {
        lemma_utf16_prefix_grows(s, i, j - 1);
        lemma_utf16_prefix_step(s, j - 1);
    }
}

/// Converts a UTF-16 column offset to a character (Unicode scalar) offset
/// within the given line text: the first character at which the UTF-16
/// prefix reaches the column, or the character count if none does.
///
/// Characters outside the Basic Multilingual Plane are two UTF-16 code units
/// but one character.
pub fn utf16_col_to_char_col(line_text: &str, utf16_col: usize) -> (r: usize)
    ensures
        is_char_col_for(line_text@, utf16_col as int, r as int),
{
    let chars = chars_of(line_text);
    let mut utf16_offset: usize = 0;
    let mut char_idx: usize = 0;
    while char_idx < chars.len()
        invariant
            chars@ == line_text@,
            char_idx <= chars@.len(),
            utf16_offset == (if utf16_len(line_text@.take(char_idx as int)) > usize::MAX {
                usize::MAX as int
            } else {
                utf16_len(line_text@.take(char_idx as int)) as int
            }),
            forall|j: int| 0 <= j < char_idx ==> utf16_len(#[trigger] line_text@.take(j)) < utf16_col,
        decreases chars@.len() - char_idx,
    {
        if utf16_offset >= utf16_col {
            return char_idx;
        }
        proof {
            lemma_utf16_prefix_step(line_text@, char_idx as int);
        }
        // The running count can exceed `usize::MAX` only after it has
        // passed `utf16_col`; saturating keeps that comparison right.
        utf16_offset = utf16_offset.saturating_add(char_len_utf16(chars[char_idx]));
        char_idx = char_idx + 1;
    }
    chars.len()
}

/// Converts a character column offset to a UTF-16 column offset within the
/// given line text: the UTF-16 length of the first `char_col` characters (of
/// all of them if the line is shorter).
pub fn char_col_to_utf16_col(line_text: &str, char_col: usize) -> (r: usize)
    requires
        utf16_prefix_len(line_text@, char_col as int) <= usize::MAX,
    ensures
        r == utf16_prefix_len(line_text@, char_col as int),
        ({
            let n = if char_col <= line_text@.len() { char_col as int } else { line_text@.len() as int };
            r == n + supplementary(line_text@.take(n)).len()
        }),
{
    let chars = chars_of(line_text);
    let mut sum: usize = 0;
    let mut i: usize = 0;
    let ghost stop: int = if char_col <= line_text@.len() { char_col as int } else { line_text@.len() as int };
    while i < chars.len() && i < char_col
        invariant
            chars@ == line_text@,
            i <= stop,
            stop == (if char_col <= line_text@.len() { char_col as int } else { line_text@.len() as int }),
            sum == utf16_len(line_text@.take(i as int)),
            utf16_len(line_text@.take(stop)) <= usize::MAX,
        decreases chars@.len() - i,
    {
        proof {
            lemma_utf16_prefix_step(line_text@, i as int);
            lemma_utf16_prefix_grows(line_text@, i + 1, stop);
        }
        sum = sum + char_len_utf16(chars[i]);
        i = i + 1;
    }
    proof {
        lemma_utf16_len_counts(line_text@.take(stop));
    }
    sum
}

/// Converts an LSP position to a position with a character column, given the
/// text of its line. A column that does not fit in `u32` is truncated.
pub fn lsp_position_to_position(line_text: &str, lsp_pos: Utf16Position) -> (p: Position)
    ensures
        p.line == lsp_pos.line,
        exists|r: int| is_char_col_for(line_text@, lsp_pos.character as int, r) && p.column == #[verifier::truncate] (r as u32),
{
    let char_col = utf16_col_to_char_col(line_text, lsp_pos.character as usize);
    Position::new(lsp_pos.line, #[verifier::truncate] (char_col as u32))
}

/// Converts a position to an LSP position, given the text of its line. A
/// column that does not fit in `u32` is truncated.
pub fn position_to_lsp_position(line_text: &str, pos: Position) -> (p: Utf16Position)
    requires
        utf16_prefix_len(line_text@, pos.column as int) <= usize::MAX,
    ensures
        p.line == pos.line,
        p.character == #[verifier::truncate] (utf16_prefix_len(line_text@, pos.column as int) as u32),
{
    let utf16_col = char_col_to_utf16_col(line_text, pos.column as usize);
    Utf16Position::new(pos.line, #[verifier::truncate] (utf16_col as u32))
}

/// `r` is the character column for UTF-16 column `col` in `s`: the first
/// character at which the UTF-16 prefix reaches `col`, or the length of `s`
/// if no character does.
pub open spec fn is_char_col_for(s: Seq<char>, col: int, r: int) -> bool {
    &&& 0 <= r <= s.len()
    &&& forall|j: int| 0 <= j < r ==> utf16_len(#[trigger] s.take(j)) < col
    &&& r < s.len() ==> utf16_len(s.take(r)) >= col
}

/// At most one column meets `is_char_col_for`.
pub proof fn lemma_char_col_unique(s: Seq<char>, col: int, r1: int, r2: int)
    requires
        is_char_col_for(s, col, r1),
        is_char_col_for(s, col, r2),
    ensures
        r1 == r2,
{
    if r1 < r2 {
        assert(utf16_len(s.take(r1)) < col);
    } else if r2 < r1 {
        assert(utf16_len(s.take(r2)) < col);
    }
}

/// Round trip: converting a character column (within the line) to UTF-16
/// and back gives the same column.
pub proof fn lemma_column_roundtrip(s: Seq<char>, c: int)
    requires
        0 <= c <= s.len(),
    ensures
        is_char_col_for(s, utf16_prefix_len(s, c) as int, c),
{
    assert forall|j: int| 0 <= j < c implies utf16_len(#[trigger] s.take(j)) < utf16_prefix_len(s, c) by {
        lemma_utf16_prefix_grows(s, j, c);
    }
}

/// Round trip the other way: the character column for a UTF-16 column within
/// the line starts at or after it, and the column before it starts before it.
pub proof fn lemma_utf16_column_rounds_up(s: Seq<char>, col: int, r: int)
    requires
        is_char_col_for(s, col, r),
        0 <= col <= utf16_len(s),
    ensures
        utf16_prefix_len(s, r) >= col,
        r > 0 ==> utf16_prefix_len(s, r - 1) < col,
{
    if r == s.len() {
        assert(s.take(r) =~= s);
    }
}

/// In text made only of Basic Multilingual Plane characters (ASCII among
/// them), UTF-16 columns and character columns coincide.
pub proof fn lemma_bmp_columns(s: Seq<char>, n: int)
    requires
        0 <= n <= s.len(),
        forall|i: int| 0 <= i < s.len() ==> (#[trigger] s[i] as u32) < 0x10000,
    ensures
        utf16_prefix_len(s, n) == n,
    decreases n,
{
    if n > 0 {
        lemma_bmp_columns(s, n - 1);
        lemma_utf16_prefix_step(s, n - 1);
    }
}

} // verus!
