//! Character-level helpers on strings.
use vstd::prelude::*;

verus! {

broadcast use vstd::string::group_string_axioms;

/// The characters of `s`, in order.
pub fn chars_of(s: &str) -> (r: Vec<char>)
    ensures
        r@ == s@,
{
    let mut out: Vec<char> = Vec::new();
    for c in it: s.chars()
        invariant
            out@ == it.seq().take(it.index()),
            it.seq() == s@,
    {
        out.push(c);
    }
    out
}

} // verus!

verus! {

/// `String: FromIterator<char>`: the string of the given characters.
#[verifier::external_body]
pub fn string_from_chars(cs: &Vec<char>) -> (s: String)
    ensures
        s@ == cs@,
{
    cs.iter().collect()
}

} // verus!

verus! {

/// Whether a character has the Unicode `White_Space` property: tab, line
/// feed, vertical tab, form feed, carriage return, space, U+0085, U+00A0,
/// U+1680, U+2000 to U+200A, U+2028, U+2029, U+202F, U+205F and U+3000.
pub open spec fn is_white_space(c: char) -> bool {
    let u = c as u32;
    ||| 0x09 <= u <= 0x0D
    ||| u == 0x20
    ||| u == 0x85
    ||| u == 0xA0
    ||| u == 0x1680
    ||| 0x2000 <= u <= 0x200A
    ||| u == 0x2028
    ||| u == 0x2029
    ||| u == 0x202F
    ||| u == 0x205F
    ||| u == 0x3000
}

/// Whether `c` is white space, as `char::is_whitespace` decides it: the
/// characters with the Unicode `White_Space` property.
pub fn char_is_whitespace(c: char) -> (r: bool)
    ensures
        r == is_white_space(c),
{
    let u = c as u32;
    (0x09 <= u && u <= 0x0D) || u == 0x20 || u == 0x85 || u == 0xA0 || u == 0x1680
        || (0x2000 <= u && u <= 0x200A) || u == 0x2028 || u == 0x2029 || u == 0x202F
        || u == 0x205F || u == 0x3000
}

/// The first index at or after `i` whose character is not white space, or
/// the length of `s`.
pub open spec fn skip_white(s: Seq<char>, i: int) -> int
    decreases s.len() - i,
{
    if i < 0 || i >= s.len() || !is_white_space(s[i]) {
        if i < 0 { 0 } else if i > s.len() { s.len() as int } else { i }
    } else {
        skip_white(s, i + 1)
    }
}

/// The end of `s[.. j]` once trailing white space is dropped.
pub open spec fn trim_end_at(s: Seq<char>, j: int) -> int
    decreases j,
{
    if j <= 0 || !is_white_space(s[j - 1]) {
        if j < 0 { 0 } else { j }
    } else {
        trim_end_at(s, j - 1)
    }
}

/// `s` without leading and trailing white space (`str::trim`).
pub open spec fn trimmed(s: Seq<char>) -> Seq<char> {
    let a = skip_white(s, 0);
    let b = trim_end_at(s, s.len() as int);
    if a < b { s.subrange(a, b) } else { Seq::empty() }
}

/// `skip_white` lands on a non-white character or the end, past only white
/// characters.
pub proof fn lemma_skip_white(s: Seq<char>, i: int)
    requires
        0 <= i <= s.len(),
    ensures
        i <= skip_white(s, i) <= s.len(),
        skip_white(s, i) < s.len() ==> !is_white_space(s[skip_white(s, i)]),
        forall|j: int| i <= j < skip_white(s, i) ==> is_white_space(#[trigger] s[j]),
    decreases s.len() - i,
{
    if i < s.len() && is_white_space(s[i]) {
        lemma_skip_white(s, i + 1);
    }
}

/// `trim_end_at` drops only white characters and stops after a non-white
/// one or at the start.
pub proof fn lemma_trim_end(s: Seq<char>, j: int)
    requires
        0 <= j <= s.len(),
    ensures
        0 <= trim_end_at(s, j) <= j,
        trim_end_at(s, j) > 0 ==> !is_white_space(s[trim_end_at(s, j) - 1]),
        forall|k: int| trim_end_at(s, j) <= k < j ==> is_white_space(#[trigger] s[k]),
    decreases j,
{
    if j > 0 && is_white_space(s[j - 1]) {
        lemma_trim_end(s, j - 1);
    }
}

/// The first index at or after `i` whose character is not white space.
pub fn skip_white_from(s: &Vec<char>, i: usize) -> (r: usize)
    requires
        i <= s@.len(),
    ensures
        r == skip_white(s@, i as int),
{
    let mut j = i;
    while j < s.len() && char_is_whitespace(s[j])
        invariant
            i <= j <= s@.len(),
            skip_white(s@, j as int) == skip_white(s@, i as int),
        decreases s@.len() - j,
    {
        j = j + 1;
    }
    j
}

/// The end of `s[.. j]` without its trailing white space.
pub fn trim_end_from(s: &Vec<char>, j: usize) -> (r: usize)
    requires
        j <= s@.len(),
    ensures
        r == trim_end_at(s@, j as int),
{
    let mut k = j;
    while k > 0 && char_is_whitespace(s[k - 1])
        invariant
            k <= j,
            j <= s@.len(),
            trim_end_at(s@, k as int) == trim_end_at(s@, j as int),
        decreases k,
    {
        k = k - 1;
    }
    k
}

} // verus!
