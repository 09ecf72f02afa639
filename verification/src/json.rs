//! The small JSON subset that the search index reads and writes: an array
//! of strings in, escaped strings out.
use vstd::prelude::*;
use crate::chars::{
    chars_of, char_is_whitespace, is_white_space, lemma_skip_white, lemma_trim_end, skip_white,
    skip_white_from, string_from_chars, trim_end_at, trim_end_from, trimmed,
};
use crate::diff::views;
use crate::sha1::hex_digit;

verus! {

/// What the escape `\` followed by `e` stands for: the JSON escapes `\"`,
/// `\\`, `\/`, `\n`, `\r`, `\t`; any other escape is kept as written.
pub open spec fn unescaped(e: char) -> Seq<char> {
    if e == '"' || e == '\\' || e == '/' {
        seq![e]
    } else if e == 'n' {
        seq!['\n']
    } else if e == 'r' {
        seq!['\r']
    } else if e == 't' {
        seq!['\t']
    } else {
        seq!['\\', e]
    }
}

/// Reads the body of a quoted string from index `i` (just after the opening
/// quote), with `acc` read so far: the text and the index after the closing
/// quote, or `None` if the input ends first.
pub open spec fn string_body(s: Seq<char>, i: int, acc: Seq<char>) -> Option<(Seq<char>, int)>
    decreases s.len() - i,
{
    if i < 0 || i >= s.len() {
        None
    } else if s[i] == '\\' {
        if i + 1 >= s.len() {
            None
        } else {
            string_body(s, i + 2, acc + unescaped(s[i + 1]))
        }
    } else if s[i] == '"' {
        Some((acc, i + 1))
    } else {
        string_body(s, i + 1, acc.push(s[i]))
    }
}

/// A string body that is read ends after where it starts.
pub proof fn lemma_string_body_advances(s: Seq<char>, i: int, acc: Seq<char>)
    ensures
        string_body(s, i, acc) matches Some((_, k)) ==> i < k <= s.len(),
    decreases s.len() - i,
{
    if 0 <= i < s.len() {
        if s[i] == '\\' {
            if i + 1 < s.len() {
                lemma_string_body_advances(s, i + 2, acc + unescaped(s[i + 1]));
            }
        } else if s[i] != '"' {
            lemma_string_body_advances(s, i + 1, acc.push(s[i]));
        }
    }
}

/// Reads comma-separated quoted strings from index `i`, after the items
/// `acc`: white space may surround items, a trailing comma is allowed, and
/// anything else is an error.
pub open spec fn items_from(s: Seq<char>, i: int, acc: Seq<Seq<char>>) -> Option<Seq<Seq<char>>>
    decreases s.len() - i,
{
    let j = skip_white(s, i);
    if i < 0 || i > s.len() {
        None
    } else if j >= s.len() {
        Some(acc)
    } else if s[j] != '"' {
        None
    } else {
        match string_body(s, j + 1, Seq::empty()) {
            None => None,
            Some((item, k)) => {
                proof {
                    lemma_skip_white(s, i);
                    lemma_string_body_advances(s, j + 1, Seq::empty());
                    lemma_skip_white(s, k);
                }
                let k2 = skip_white(s, k);
                if k2 >= s.len() {
                    Some(acc.push(item))
                } else if s[k2] == ',' {
                    items_from(s, k2 + 1, acc.push(item))
                } else {
                    None
                }
            }
        }
    }
}

/// The strings of a JSON array of strings, or `None` if the text is not one
/// (after trimming white space it must start with `[` and end with `]`).
pub open spec fn string_array(json: Seq<char>) -> Option<Seq<Seq<char>>> {
    let t = trimmed(json);
    if t.len() < 2 || t[0] != '[' || t[t.len() - 1] != ']' {
        None
    } else {
        let inner = t.subrange(1, t.len() - 1);
        if trimmed(inner).len() == 0 {
            Some(Seq::empty())
        } else {
            items_from(inner, 0, Seq::empty())
        }
    }
}

/// Parses a JSON array of strings.
pub fn parse_string_array(json: &str) -> (r: Option<Vec<String>>)
    ensures
        r.is_some() == string_array(json@).is_some(),
        r matches Some(v) ==> views(v@) == string_array(json@).unwrap(),
{
    let all = chars_of(json);
    let a = skip_white_from(&all, 0);
    let b = trim_end_from(&all, all.len());
    proof {
        lemma_skip_white(json@, 0);
        lemma_trim_end(json@, json@.len() as int);
    }
    // `trimmed` is `all[a .. b]` when `a < b`, empty otherwise.
    if !(a < b) || all[a] != '[' || all[b - 1] != ']' {
        return None;
    }
    if b - a < 2 {
        // A single `[` does not end with `]`.
        return None;
    }
    let ghost t = trimmed(json@);
    assert(t =~= json@.subrange(a as int, b as int));
    let mut s: Vec<char> = Vec::new();
    let mut i = a + 1;
    while i < b - 1
        invariant
            all@ == json@,
            a + 1 <= i <= b - 1,
            b <= all@.len(),
            s@ == all@.subrange(a + 1, i as int),
        decreases b - 1 - i,
    {
        s.push(all[i]);
        i = i + 1;
    }
    let ghost inner = t.subrange(1, t.len() - 1);
    assert(s@ =~= inner);
    let first = skip_white_from(&s, 0);
    let last = trim_end_from(&s, s.len());
    proof {
        lemma_skip_white(inner, 0);
        lemma_trim_end(inner, inner.len() as int);
    }
    if !(first < last) {
        assert(trimmed(inner).len() == 0);
        return Some(Vec::new());
    }
    assert(trimmed(inner).len() > 0);
    let ghost target = items_from(inner, 0, Seq::empty());
    assert(string_array(json@) == target);
    let mut result: Vec<String> = Vec::new();
    let mut pos: usize = 0;
    assert(views(result@) =~= Seq::<Seq<char>>::empty());
    loop
        invariant
            s@ == inner,
            pos <= s@.len(),
            items_from(inner, pos as int, views(result@)) == target,
            string_array(json@) == target,
        decreases s@.len() - pos,
    {
        let ghost p0 = pos as int;
        let ghost acc = views(result@);
        proof {
            lemma_skip_white(inner, pos as int);
        }
        pos = skip_white_from(&s, pos);
        if pos >= s.len() {
            return Some(result);
        }
        if s[pos] != '"' {
            return None;
        }
        pos = pos + 1;
        let mut item: Vec<char> = Vec::new();
        let ghost start = pos as int;
        loop
            invariant_except_break
                string_body(inner, pos as int, item@) == string_body(inner, start, Seq::empty()),
            invariant
                s@ == inner,
                start <= pos <= s@.len(),
                items_from(inner, p0, acc) == target,
                string_array(json@) == target,
                p0 <= start - 1,
                start - 1 == skip_white(inner, p0),
                inner[start - 1] == '"',
            ensures
                start < pos <= s@.len(),
                string_body(inner, start, Seq::empty()) == Some((item@, pos as int)),
            decreases s@.len() - pos,
        {
            if pos >= s.len() {
                return None;
            }
            let c = s[pos];
            let ghost before = item@;
            if c == '\\' {
                if pos + 1 >= s.len() {
                    return None;
                }
                let escaped = s[pos + 1];
                if escaped == '"' || escaped == '\\' || escaped == '/' {
                    item.push(escaped);
                } else if escaped == 'n' {
                    item.push('\n');
                } else if escaped == 'r' {
                    item.push('\r');
                } else if escaped == 't' {
                    item.push('\t');
                } else {
                    item.push('\\');
                    item.push(escaped);
                }
                assert(item@ =~= before + unescaped(escaped));
                pos = pos + 2;
            } else if c == '"' {
                pos = pos + 1;
                break;
            } else {
                item.push(c);
                pos = pos + 1;
            }
        }
        let text = string_from_chars(&item);
        result.push(text);
        assert(views(result@) =~= acc.push(item@));
        proof {
            lemma_skip_white(inner, pos as int);
        }
        pos = skip_white_from(&s, pos);
        if pos >= s.len() {
            return Some(result);
        }
        if s[pos] == ',' {
            pos = pos + 1;
        } else {
            return None;
        }
    }
}

/// How one character is written inside a JSON string: quote, backslash,
/// newline, carriage return and tab by their escapes, other control
/// characters as `\u00XX` in lowercase hex, everything else as itself.
pub open spec fn escaped_char(c: char) -> Seq<char> {
    if c == '"' {
        seq!['\\', '"']
    } else if c == '\\' {
        seq!['\\', '\\']
    } else if c == '\n' {
        seq!['\\', 'n']
    } else if c == '\r' {
        seq!['\\', 'r']
    } else if c == '\t' {
        seq!['\\', 't']
    } else if (c as u32) < 0x20 {
        seq!['\\', 'u', '0', '0', hex_digit((c as u32) >> 4u32), hex_digit((c as u32) & 0xfu32)]
    } else {
        seq![c]
    }
}

/// A text written as the inside of a JSON string.
pub open spec fn escaped(s: Seq<char>) -> Seq<char>
    decreases s.len(),
{
    if s.len() == 0 {
        Seq::empty()
    } else {
        escaped(s.drop_last()) + escaped_char(s.last())
    }
}

/// Every control character of `s` is a newline, a carriage return or a tab:
/// the ones that a JSON string reader here turns back into themselves.
pub open spec fn plain_controls(s: Seq<char>) -> bool {
    forall|i: int| 0 <= i < s.len() ==>
        (#[trigger] s[i] as u32) >= 0x20 || s[i] == '\n' || s[i] == '\r' || s[i] == '\t'
}

/// Escaping one character more at the front.
proof fn lemma_escaped_front(c: char, s: Seq<char>)
    ensures
        escaped(seq![c] + s) == escaped_char(c) + escaped(s),
    decreases s.len(),
{
    let all = seq![c] + s;
    if s.len() == 0 {
        assert(all.drop_last() =~= Seq::<char>::empty());
        assert(all.last() == c);
        assert(escaped(all) =~= escaped(all.drop_last()) + escaped_char(c));
        assert(escaped(all) =~= escaped_char(c));
        assert(escaped_char(c) + escaped(s) =~= escaped_char(c));
    } else {
        lemma_escaped_front(c, s.drop_last());
        assert(all.drop_last() =~= seq![c] + s.drop_last());
        assert(all.last() == s.last());
        assert(escaped(all) =~= escaped_char(c) + escaped(s));
    }
}

/// Reading back an escaped text: a string body that holds `escaped(s)` and
/// then a closing quote reads as `s`, when every control character of `s`
/// is a newline, carriage return or tab.
pub proof fn lemma_escape_read_back(text: Seq<char>, i: int, acc: Seq<char>, s: Seq<char>)
    requires
        plain_controls(s),
        0 <= i,
        i + escaped(s).len() < text.len(),
        text.subrange(i, i + escaped(s).len()) == escaped(s),
        text[i + escaped(s).len()] == '"',
    ensures
        string_body(text, i, acc) == Some((acc + s, i + escaped(s).len() + 1)),
    decreases s.len(),
{
    if s.len() == 0 {
        assert(acc + s =~= acc);
    } else {
        let c = s[0];
        let rest = s.drop_first();
        assert(s =~= seq![c] + rest);
        lemma_escaped_front(c, rest);
        let ec = escaped_char(c);
        let er = escaped(rest);
        assert(escaped(s) == ec + er);
        assert forall|j: int| 0 <= j < ec.len() implies text[i + j] == #[trigger] ec[j] by {
            assert(text.subrange(i, i + escaped(s).len())[j] == escaped(s)[j]);
        }
        assert(text.subrange(i + ec.len(), i + ec.len() + er.len()) =~= er) by {
            assert forall|j: int| 0 <= j < er.len() implies
                #[trigger] text.subrange(i + ec.len(), i + ec.len() + er.len())[j] == er[j] by {
                assert(text.subrange(i, i + escaped(s).len())[ec.len() + j] == escaped(s)[ec.len() + j]);
            }
        }
        assert forall|j: int| 0 <= j < rest.len() implies
            (#[trigger] rest[j] as u32) >= 0x20 || rest[j] == '\n' || rest[j] == '\r' || rest[j] == '\t' by {
            assert(rest[j] == s[j + 1]);
        }
        assert(s[0] == c);
        lemma_escape_read_back(text, i + ec.len(), acc.push(c), rest);
        assert(acc.push(c) + rest =~= acc + s);
        if c == '"' || c == '\\' || c == '\n' || c == '\r' || c == '\t' {
            assert(text[i] == '\\');
            assert(acc + unescaped(text[i + 1]) =~= acc.push(c));
        } else {
            assert(text[i] == c);
        }
    }
}

/// Escaping a text and writing it as the one string of a JSON array, then
/// parsing that array, gives back the text, when every control character of
/// the text is a newline, carriage return or tab.
pub proof fn lemma_escape_parse_round_trip(s: Seq<char>)
    requires
        plain_controls(s),
    ensures
        string_array(seq!['[', '"'] + escaped(s) + seq!['"', ']']) == Some(seq![s]),
{
    let e = escaped(s);
    let json = seq!['[', '"'] + e + seq!['"', ']'];
    let n = json.len() as int;
    assert(json[0] == '[');
    assert(json[n - 1] == ']');
    assert(skip_white(json, 0) == 0);
    assert(trim_end_at(json, n) == n);
    let t = trimmed(json);
    assert(t =~= json);
    let inner = t.subrange(1, n - 1);
    assert(inner =~= seq!['"'] + e + seq!['"']);
    let m = inner.len() as int;
    assert(inner[0] == '"');
    assert(inner[m - 1] == '"');
    assert(skip_white(inner, 0) == 0);
    assert(trim_end_at(inner, m) == m);
    assert(trimmed(inner).len() == m);
    assert(inner.subrange(1, 1 + e.len() as int) =~= e);
    lemma_escape_read_back(inner, 1, Seq::empty(), s);
    assert(Seq::<char>::empty() + s =~= s);
    assert(skip_white(inner, m) == m);
    assert(Seq::<Seq<char>>::empty().push(s) =~= seq![s]);
}

/// A text written as a JSON string: escaped, between quotes.
pub open spec fn quoted(x: Seq<char>) -> Seq<char> {
    seq!['"'] + escaped(x) + seq!['"']
}

/// The texts written as JSON strings, one after another, with `sep` between
/// each two.
pub open spec fn joined(items: Seq<Seq<char>>, sep: Seq<char>) -> Seq<char>
    decreases items.len(),
{
    if items.len() == 0 {
        Seq::empty()
    } else if items.len() == 1 {
        quoted(items[0])
    } else {
        quoted(items[0]) + sep + joined(items.drop_first(), sep)
    }
}

/// Every character of `w` is white space.
pub open spec fn all_white(w: Seq<char>) -> bool {
    forall|i: int| 0 <= i < w.len() ==> is_white_space(#[trigger] w[i])
}

/// Skipping white space passes exactly a run of white space that is followed
/// by something else or by the end.
proof fn lemma_skip_white_run(s: Seq<char>, i: int, n: int)
    requires
        0 <= i,
        0 <= n,
        i + n <= s.len(),
        forall|j: int| i <= j < i + n ==> is_white_space(#[trigger] s[j]),
        i + n < s.len() ==> !is_white_space(s[i + n]),
    ensures
        skip_white(s, i) == i + n,
    decreases n,
{
    if n > 0 {
        lemma_skip_white_run(s, i + 1, n - 1);
    }
}

/// A list of JSON strings starts and ends with a quote.
proof fn lemma_joined_ends(items: Seq<Seq<char>>, sep: Seq<char>)
    requires
        items.len() > 0,
    ensures
        joined(items, sep).len() >= 2,
        joined(items, sep)[0] == '"',
        joined(items, sep)[joined(items, sep).len() - 1] == '"',
    decreases items.len(),
{
    if items.len() > 1 {
        lemma_joined_ends(items.drop_first(), sep);
    }
}

/// Reading a list of JSON strings, preceded by white space `w` and
/// separated by a comma and white space `sw`, gives back the texts.
proof fn lemma_items_joined(s: Seq<char>, i: int, w: Seq<char>, items: Seq<Seq<char>>, sw: Seq<char>, acc: Seq<Seq<char>>)
    requires
        items.len() > 0,
        forall|k: int| 0 <= k < items.len() ==> plain_controls(#[trigger] items[k]),
        all_white(w),
        all_white(sw),
        0 <= i <= s.len(),
        s.subrange(i, s.len() as int) == w + joined(items, seq![','] + sw),
    ensures
        items_from(s, i, acc) == Some(acc + items),
    decreases items.len(),
{
    let x = items[0];
    let e = escaped(x);
    let q = quoted(x);
    let sep = seq![','] + sw;
    let rest_items = items.drop_first();
    let tail = if items.len() == 1 { Seq::<char>::empty() } else { sep + joined(rest_items, sep) };
    assert(joined(items, sep) =~= q + tail);
    let whole = w + q + tail;
    assert(s.subrange(i, s.len() as int) =~= whole);
    assert(s.len() == i + whole.len());
    assert forall|t: int| 0 <= t < whole.len() implies s[i + t] == #[trigger] whole[t] by {
        assert(s.subrange(i, s.len() as int)[t] == s[i + t]);
    }
    let j = i + w.len();
    assert forall|t: int| i <= t < j implies is_white_space(#[trigger] s[t]) by {
        assert(whole[t - i] == w[t - i]);
    }
    assert(s[j] == whole[w.len() as int]);
    lemma_skip_white_run(s, i, w.len() as int);
    // The string body.
    assert(s.subrange(j + 1, j + 1 + e.len()) =~= e) by {
        assert forall|t: int| 0 <= t < e.len() implies #[trigger] s.subrange(j + 1, j + 1 + e.len())[t] == e[t] by {
            assert(whole[w.len() + 1 + t] == q[1 + t]);
        }
    }
    assert(s[j + 1 + e.len()] == whole[w.len() + 1 + e.len() as int]);
    lemma_escape_read_back(s, j + 1, Seq::empty(), x);
    assert(Seq::<char>::empty() + x =~= x);
    let k = j + q.len();
    if items.len() == 1 {
        assert(k == s.len());
        assert(acc.push(x) =~= acc + items);
    } else {
        assert(s[k] == whole[w.len() + q.len() as int]);
        assert(s[k] == ',');
        lemma_skip_white_run(s, k, 0);
        let rest_s = s.subrange(k + 1, s.len() as int);
        assert(rest_s =~= sw + joined(rest_items, sep)) by {
            assert forall|t: int| 0 <= t < rest_s.len() implies #[trigger] rest_s[t] == (sw + joined(rest_items, sep))[t] by {
                assert(whole[w.len() + q.len() + 1 + t] == tail[1 + t]);
            }
        }
        assert forall|kk: int| 0 <= kk < rest_items.len() implies plain_controls(#[trigger] rest_items[kk]) by {
            assert(rest_items[kk] == items[kk + 1]);
        }
        lemma_items_joined(s, k + 1, sw, rest_items, sw, acc.push(x));
        assert(acc.push(x) + rest_items =~= acc + items);
    }
}

/// A JSON array of strings, written with a comma and any white space
/// between items, parses back to the texts, when every control character of
/// each text is a newline, carriage return or tab.
pub proof fn lemma_parse_joined_array(items: Seq<Seq<char>>, w: Seq<char>)
    requires
        forall|k: int| 0 <= k < items.len() ==> plain_controls(#[trigger] items[k]),
        all_white(w),
    ensures
        string_array(seq!['['] + joined(items, seq![','] + w) + seq![']']) == Some(items),
{
    let jn = joined(items, seq![','] + w);
    let json = seq!['['] + jn + seq![']'];
    let n = json.len() as int;
    assert(json[0] == '[');
    assert(json[n - 1] == ']');
    assert(skip_white(json, 0) == 0);
    assert(trim_end_at(json, n) == n);
    assert(trimmed(json) =~= json);
    let inner = json.subrange(1, n - 1);
    assert(inner =~= jn);
    if items.len() == 0 {
        assert(jn.len() == 0);
        assert(trimmed(inner).len() == 0);
        assert(items =~= Seq::<Seq<char>>::empty());
    } else {
        lemma_joined_ends(items, seq![','] + w);
        let m = jn.len() as int;
        assert(skip_white(jn, 0) == 0);
        assert(trim_end_at(jn, m) == m);
        assert(trimmed(jn).len() == m);
        assert(jn.subrange(0, m) =~= Seq::<char>::empty() + jn);
        lemma_items_joined(jn, 0, Seq::empty(), items, w, Seq::empty());
        assert(Seq::<Seq<char>>::empty() + items =~= items);
    }
}

/// Escapes a text for use inside a JSON string.
pub fn escape_json_string(s: &str) -> (r: String)
    ensures
        r@ == escaped(s@),
{
    let cs = chars_of(s);
    let mut out: Vec<char> = Vec::new();
    let mut i: usize = 0;
    while i < cs.len()
        invariant
            cs@ == s@,
            i <= cs@.len(),
            out@ == escaped(s@.take(i as int)),
        decreases cs@.len() - i,
    {
        let c = cs[i];
        let ghost before = out@;
        if c == '"' {
            out.push('\\');
            out.push('"');
        } else if c == '\\' {
            out.push('\\');
            out.push('\\');
        } else if c == '\n' {
            out.push('\\');
            out.push('n');
        } else if c == '\r' {
            out.push('\\');
            out.push('r');
        } else if c == '\t' {
            out.push('\\');
            out.push('t');
        } else if (c as u32) < 0x20 {
            let code = c as u32;
            let hi = code >> 4u32;
            let lo = code & 0xfu32;
            assert(hi < 16 && lo < 16) by (bit_vector)
                requires
                    code < 0x20,
                    hi == code >> 4u32,
                    lo == code & 0xfu32,
            ;
            let hi_c = if hi < 10 { ((hi as u8) + 48) as char } else { ((hi as u8) + 87) as char };
            let lo_c = if lo < 10 { ((lo as u8) + 48) as char } else { ((lo as u8) + 87) as char };
            out.push('\\');
            out.push('u');
            out.push('0');
            out.push('0');
            out.push(hi_c);
            out.push(lo_c);
        } else {
            out.push(c);
        }
        assert(s@.take(i + 1).drop_last() =~= s@.take(i as int));
        assert(out@ =~= before + escaped_char(c));
        i = i + 1;
    }
    assert(s@.take(cs@.len() as int) =~= s@);
    string_from_chars(&out)
}

} // verus!
