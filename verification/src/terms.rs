//! Splitting text into search terms: lowercase words of at least three
//! letters or digits that start with a letter, plus the camelCase parts of
//! each word.
use vstd::prelude::*;
use vstd::utf8::{decode_utf8, encode_utf8, is_char_boundary};
use vstd::string::StringSliceAdditionalSpecFns;
use crate::chars::{chars_of, string_from_chars};
use crate::diff::views;

verus! {

broadcast use vstd::utf8::encode_utf8_decode_utf8;

/// Whether `char::is_alphabetic` holds of `c` (the Unicode `Alphabetic`
/// property).
pub uninterp spec fn is_alphabetic(c: char) -> bool;

/// Whether `char::is_alphanumeric` holds of `c`.
pub uninterp spec fn is_alphanumeric(c: char) -> bool;

/// Whether `char::is_uppercase` holds of `c` (the Unicode `Uppercase`
/// property).
pub uninterp spec fn is_uppercase(c: char) -> bool;

/// Whether `char::is_lowercase` holds of `c` (the Unicode `Lowercase`
/// property).
pub uninterp spec fn is_lowercase(c: char) -> bool;

/// What `str::to_lowercase` returns for a text.
pub uninterp spec fn lowercase(s: Seq<char>) -> Seq<char>;

/// `char::is_alphabetic`: its result is named `is_alphabetic`.
#[verifier::external_body]
fn char_is_alphabetic(c: char) -> (r: bool)
    ensures
        r == is_alphabetic(c),
{
    c.is_alphabetic()
}

/// `char::is_alphanumeric`: its result is named `is_alphanumeric`; as
/// documented, it holds of every alphabetic character.
#[verifier::external_body]
fn char_is_alphanumeric(c: char) -> (r: bool)
    ensures
        r == is_alphanumeric(c),
        is_alphabetic(c) ==> r,
{
    c.is_alphanumeric()
}

/// `char::is_uppercase`: its result is named `is_uppercase`.
#[verifier::external_body]
fn char_is_uppercase(c: char) -> (r: bool)
    ensures
        r == is_uppercase(c),
{
    c.is_uppercase()
}

/// `char::is_lowercase`: its result is named `is_lowercase`.
#[verifier::external_body]
fn char_is_lowercase(c: char) -> (r: bool)
    ensures
        r == is_lowercase(c),
{
    c.is_lowercase()
}

/// `str::to_lowercase`: its result is named `lowercase`.
#[verifier::external_body]
fn str_to_lowercase(s: &str) -> (r: String)
    ensures
        r@ == lowercase(s@),
{
    s.to_lowercase()
}

/// `&s[from..to]` on byte offsets that are character boundaries.
#[verifier::external_body]
fn str_byte_slice(s: &str, from: usize, to: usize) -> (r: &str)
    requires
        from <= to <= s.spec_bytes().len(),
        is_char_boundary(s.spec_bytes(), from as int),
        is_char_boundary(s.spec_bytes(), to as int),
    ensures
        r.spec_bytes() == s.spec_bytes().subrange(from as int, to as int),
{
    &s[from..to]
}

/// The end of the run of alphanumeric characters of `s` from `i` on.
pub open spec fn alnum_end(s: Seq<char>, i: int) -> int
    decreases s.len() - i,
{
    if i < 0 || i >= s.len() || !is_alphanumeric(s[i]) {
        i
    } else {
        alnum_end(s, i + 1)
    }
}

/// The run stays within `s`, and all of it is alphanumeric.
pub proof fn lemma_alnum_end(s: Seq<char>, i: int)
    requires
        0 <= i <= s.len(),
    ensures
        i <= alnum_end(s, i) <= s.len(),
        forall|j: int| i <= j < alnum_end(s, i) ==> is_alphanumeric(#[trigger] s[j]),
        alnum_end(s, i) < s.len() ==> !is_alphanumeric(s[alnum_end(s, i)]),
    decreases s.len() - i,
{
    if i < s.len() && is_alphanumeric(s[i]) {
        lemma_alnum_end(s, i + 1);
    }
}

/// The camelCase part starts of a word after index `j`: each index where
/// an uppercase character follows a lowercase one.
pub open spec fn part_starts_from(w: Seq<char>, j: int) -> Seq<int>
    decreases w.len() - j,
{
    if j < 1 || j >= w.len() {
        Seq::empty()
    } else if is_uppercase(w[j]) && is_lowercase(w[j - 1]) {
        seq![j] + part_starts_from(w, j + 1)
    } else {
        part_starts_from(w, j + 1)
    }
}

/// The camelCase part starts of a word: `0`, then each index where an
/// uppercase character follows a lowercase one.
pub open spec fn part_starts(w: Seq<char>) -> Seq<int> {
    seq![0int] + part_starts_from(w, 1)
}

/// The number of alphabetic characters of `s`.
pub open spec fn alphabetic_count(s: Seq<char>) -> nat
    decreases s.len(),
{
    if s.len() == 0 {
        0
    } else {
        alphabetic_count(s.drop_last()) + (if is_alphabetic(s.last()) { 1nat } else { 0nat })
    }
}

/// The part of `w` from part start `k` to the next part start (or the end).
pub open spec fn part_at(w: Seq<char>, parts: Seq<int>, k: int) -> Seq<char> {
    let pe = if k + 1 < parts.len() { parts[k + 1] } else { w.len() as int };
    w.subrange(parts[k], pe)
}

/// The terms of the parts from `k` on: each part of at least three
/// characters, lowercased, if that has at least three alphabetic characters.
pub open spec fn part_terms(w: Seq<char>, parts: Seq<int>, k: int) -> Seq<Seq<char>>
    decreases parts.len() - k,
{
    if k < 0 || k >= parts.len() {
        Seq::empty()
    } else {
        let p = part_at(w, parts, k);
        let here = if p.len() >= 3 && alphabetic_count(lowercase(p)) >= 3 {
            seq![lowercase(p)]
        } else {
            Seq::empty()
        };
        here + part_terms(w, parts, k + 1)
    }
}

/// The terms of the word at `lower[s .. e]`: the lowercase word, then, when
/// it has camelCase parts, the terms of its parts, taken from the input at
/// the same offsets read as byte offsets. `None` where those offsets do not
/// fall on character boundaries of the input.
pub open spec fn word_terms(input: Seq<char>, lower: Seq<char>, s: int, e: int) -> Option<Seq<Seq<char>>> {
    let bytes = encode_utf8(input);
    if e - s < 3 {
        Some(Seq::empty())
    } else if !(e <= bytes.len() && is_char_boundary(bytes, s) && is_char_boundary(bytes, e)) {
        None
    } else {
        let w = decode_utf8(bytes.subrange(s, e));
        let parts = part_starts(w);
        Some(seq![lower.subrange(s, e)] + (if parts.len() > 1 { part_terms(w, parts, 0) } else { Seq::empty() }))
    }
}

/// The terms of the words of `lower` from index `i` on.
pub open spec fn terms_from(input: Seq<char>, lower: Seq<char>, i: int) -> Option<Seq<Seq<char>>>
    decreases lower.len() - i,
{
    if i < 0 || i >= lower.len() {
        Some(Seq::empty())
    } else if !is_alphabetic(lower[i]) {
        terms_from(input, lower, i + 1)
    } else {
        let e0 = alnum_end(lower, i);
        let e = if e0 > i { e0 } else { i + 1 };
        proof {
            lemma_alnum_end(lower, i);
        }
        match word_terms(input, lower, i, e) {
            None => None,
            Some(w) => match terms_from(input, lower, e) {
                None => None,
                Some(r) => Some(w + r),
            },
        }
    }
}

/// The search terms of a text; `None` where splitting it would fail.
pub open spec fn split_terms_spec(input: Seq<char>) -> Option<Seq<Seq<char>>> {
    terms_from(input, lowercase(input), 0)
}

/// A text has no more alphabetic characters than characters.
proof fn lemma_alphabetic_count_bound(s: Seq<char>)
    ensures
        alphabetic_count(s) <= s.len(),
    decreases s.len(),
{
    if s.len() > 0 {
        lemma_alphabetic_count_bound(s.drop_last());
    }
}

/// Every part term has at least three characters.
proof fn lemma_part_terms_long(w: Seq<char>, parts: Seq<int>, k: int)
    ensures
        forall|j: int| 0 <= j < part_terms(w, parts, k).len() ==> (#[trigger] part_terms(w, parts, k)[j]).len() >= 3,
    decreases parts.len() - k,
{
    if 0 <= k < parts.len() {
        let p = part_at(w, parts, k);
        lemma_alphabetic_count_bound(lowercase(p));
        lemma_part_terms_long(w, parts, k + 1);
        let here = if p.len() >= 3 && alphabetic_count(lowercase(p)) >= 3 {
            seq![lowercase(p)]
        } else {
            Seq::empty()
        };
        let all = here + part_terms(w, parts, k + 1);
        assert forall|j: int| 0 <= j < all.len() implies (#[trigger] all[j]).len() >= 3 by {
            if j >= here.len() {
                assert(all[j] == part_terms(w, parts, k + 1)[j - here.len()]);
            }
        }
    }
}

/// Every term read from index `i` on has at least three characters.
proof fn lemma_terms_from_long(input: Seq<char>, lower: Seq<char>, i: int)
    ensures
        terms_from(input, lower, i) matches Some(ts) ==>
            forall|j: int| 0 <= j < ts.len() ==> (#[trigger] ts[j]).len() >= 3,
    decreases lower.len() - i,
{
    if 0 <= i < lower.len() {
        if !is_alphabetic(lower[i]) {
            lemma_terms_from_long(input, lower, i + 1);
        } else {
            lemma_alnum_end(lower, i);
            let e0 = alnum_end(lower, i);
            let e = if e0 > i { e0 } else { i + 1 };
            lemma_terms_from_long(input, lower, e);
            if let Some(w) = word_terms(input, lower, i, e) {
                if let Some(r) = terms_from(input, lower, e) {
                    assert forall|j: int| 0 <= j < w.len() implies (#[trigger] w[j]).len() >= 3 by {
                        if e - i >= 3 {
                            let ws = decode_utf8(encode_utf8(input).subrange(i, e));
                            let parts = part_starts(ws);
                            if parts.len() > 1 {
                                lemma_part_terms_long(ws, parts, 0);
                                if j > 0 {
                                    assert(w[j] == part_terms(ws, parts, 0)[j - 1]);
                                }
                            }
                        }
                    }
                    let all = w + r;
                    assert forall|j: int| 0 <= j < all.len() implies (#[trigger] all[j]).len() >= 3 by {
                        if j < w.len() {
                            assert(all[j] == w[j]);
                        } else {
                            assert(all[j] == r[j - w.len()]);
                        }
                    }
                }
            }
        }
    }
}

/// Every search term of a text has at least three characters.
pub proof fn lemma_terms_long(input: Seq<char>)
    ensures
        split_terms_spec(input) matches Some(ts) ==>
            forall|j: int| 0 <= j < ts.len() ==> (#[trigger] ts[j]).len() >= 3,
{
    lemma_terms_from_long(input, lowercase(input), 0);
}

/// The terms read so far followed by those still to come, if splitting
/// does not fail.
pub open spec fn after_terms(done: Seq<Seq<char>>, rest: Option<Seq<Seq<char>>>) -> Option<Seq<Seq<char>>> {
    match rest {
        None => None,
        Some(r) => Some(done + r),
    }
}

/// Part starts as integers.
pub open spec fn ints(v: Seq<usize>) -> Seq<int> {
    v.map_values(|x: usize| x as int)
}

/// The characters `v[from .. to]` as a new vector.
fn copy_range(v: &Vec<char>, from: usize, to: usize) -> (r: Vec<char>)
    requires
        from <= to <= v@.len(),
    ensures
        r@ == v@.subrange(from as int, to as int),
{
    let mut out: Vec<char> = Vec::new();
    let mut k = from;
    while k < to
        invariant
            from <= k <= to,
            to <= v@.len(),
            out@ == v@.subrange(from as int, k as int),
        decreases to - k,
    {
        out.push(v[k]);
        k = k + 1;
    }
    out
}

/// The number of alphabetic characters of `s`.
fn count_alphabetic(s: &Vec<char>) -> (n: usize)
    ensures
        n == alphabetic_count(s@),
{
    let mut n: usize = 0;
    let mut k: usize = 0;
    while k < s.len()
        invariant
            k <= s@.len(),
            n == alphabetic_count(s@.take(k as int)),
            n <= k,
        decreases s@.len() - k,
    {
        assert(s@.take(k + 1).drop_last() =~= s@.take(k as int));
        if char_is_alphabetic(s[k]) {
            n = n + 1;
        }
        k = k + 1;
    }
    assert(s@.take(s@.len() as int) =~= s@);
    n
}

/// The camelCase part starts of a word, in increasing order.
fn camel_part_starts(w: &Vec<char>) -> (parts: Vec<usize>)
    ensures
        ints(parts@) == part_starts(w@),
        parts@.len() >= 1,
        parts@[0] == 0,
        forall|a: int, b: int| 0 <= a < b < parts@.len() ==> parts@[a] < parts@[b],
        forall|a: int| 0 <= a < parts@.len() ==> parts@[a] <= w@.len(),
{
    let wlen = w.len();
    let mut parts: Vec<usize> = Vec::new();
    let mut part_start: usize = 0;
    let mut j: usize = 1;
    assert(ints(parts@) + seq![0int] =~= seq![0int]);
    while j < wlen
        invariant
            wlen == w@.len(),
            1 <= j,
            j <= wlen || wlen == 0,
            part_start < j,
            part_start <= wlen,
            ints(parts@) + seq![part_start as int] + part_starts_from(w@, j as int) == part_starts(w@),
            parts@.len() == 0 ==> part_start == 0,
            parts@.len() > 0 ==> parts@[0] == 0,
            forall|a: int, b: int| 0 <= a < b < parts@.len() ==> parts@[a] < parts@[b],
            forall|a: int| 0 <= a < parts@.len() ==> parts@[a] < part_start,
        decreases wlen - j,
    {
        if char_is_uppercase(w[j]) && char_is_lowercase(w[j - 1]) {
            let ghost before = parts@;
            parts.push(part_start);
            assert(ints(parts@) =~= ints(before) + seq![part_start as int]);
            assert(part_starts_from(w@, j as int) =~= seq![j as int] + part_starts_from(w@, j + 1));
            assert(ints(parts@) + seq![j as int] + part_starts_from(w@, j + 1)
                =~= ints(before) + seq![part_start as int] + part_starts_from(w@, j as int));
            part_start = j;
        }
        j = j + 1;
    }
    let ghost before = parts@;
    parts.push(part_start);
    assert(part_starts_from(w@, j as int) =~= Seq::<int>::empty());
    assert(ints(parts@) =~= ints(before) + seq![part_start as int]);
    assert(ints(parts@) =~= part_starts(w@));
    parts
}

/// Splits a text into search terms: each lowercase word (a letter followed
/// by letters or digits) of at least three characters, and, for a word with
/// camelCase parts, each lowercased part of at least three characters with
/// at least three letters. `None` where the original offsets of a word do not
/// fall on character boundaries of the input.
pub fn split_terms(input: &str) -> (r: Option<Vec<String>>)
    ensures
        r.is_some() == split_terms_spec(input@).is_some(),
        r matches Some(v) ==> views(v@) == split_terms_spec(input@).unwrap(),
{
    broadcast use vstd::utf8::encode_utf8_valid_utf8;

    let lower = str_to_lowercase(input);
    let chars = chars_of(lower.as_str());
    let len = chars.len();
    let ghost target = split_terms_spec(input@);
    let mut terms: Vec<String> = Vec::new();
    let mut i: usize = 0;
    assert(views(terms@) =~= Seq::<Seq<char>>::empty());
    assert(after_terms(views(terms@), terms_from(input@, chars@, 0)) =~= target);
    while i < len
        invariant
            chars@ == lowercase(input@),
            target == split_terms_spec(input@),
            len == chars@.len(),
            i <= len,
            after_terms(views(terms@), terms_from(input@, chars@, i as int)) == target,
        decreases len - i,
    {
        if !char_is_alphabetic(chars[i]) {
            i = i + 1;
        } else {
            let start = i;
            proof {
                lemma_alnum_end(chars@, start as int);
            }
            while i < len && char_is_alphanumeric(chars[i])
                invariant
                    start <= i <= len,
                    len == chars@.len(),
                    alnum_end(chars@, i as int) == alnum_end(chars@, start as int),
                    is_alphabetic(chars@[start as int]),
                    i == start ==> start < len,
                    chars@ == lowercase(input@),
                    target == split_terms_spec(input@),
                    after_terms(views(terms@), terms_from(input@, chars@, start as int)) == target,
                decreases len - i,
            {
                i = i + 1;
            }
            assert(i > start);
            let ghost word_done = views(terms@);
            let ghost rest = terms_from(input@, chars@, i as int);
            assert(terms_from(input@, chars@, start as int) == match word_terms(input@, chars@, start as int, i as int) {
                None => None,
                Some(w) => match rest {
                    None => None,
                    Some(r) => Some(w + r),
                },
            });
            let word_len = i - start;
            if word_len >= 3 {
                let word_chars = copy_range(&chars, start, i);
                let word = string_from_chars(&word_chars);
                terms.push(word);
                proof {
                    vstd::utf8::encode_utf8_valid_utf8(input@);
                }
                if !(input.is_char_boundary(start) && input.is_char_boundary(i)) {
                    assert(word_terms(input@, chars@, start as int, i as int) is None);
                    assert(terms_from(input@, chars@, start as int) is None);
                    assert(after_terms(word_done, terms_from(input@, chars@, start as int)) == target);
                    assert(target is None);
                    return None;
                }
                proof {
                    let bytes = encode_utf8(input@);
                    assert(is_char_boundary(bytes, i as int));
                    if i > bytes.len() {
                        assert(!is_char_boundary(bytes, i as int));
                    }
                    assert(i <= bytes.len());
                }
                let sub = str_byte_slice(input, start, i);
                let w = chars_of(sub);
                let ghost wv = decode_utf8(encode_utf8(input@).subrange(start as int, i as int));
                assert(w@ == wv);
                let parts = camel_part_starts(&w);
                let ghost pv = part_starts(wv);
                let ghost base = views(terms@);
                assert(base =~= word_done + seq![chars@.subrange(start as int, i as int)]);
                if parts.len() > 1 {
                    let np = parts.len();
                    let mut k: usize = 0;
                    while k < np
                        invariant
                            np == parts@.len(),
                            np > 1,
                            ints(parts@) == pv,
                            w@ == wv,
                            forall|a: int, b: int| 0 <= a < b < parts@.len() ==> parts@[a] < parts@[b],
                            forall|a: int| 0 <= a < parts@.len() ==> parts@[a] <= w@.len(),
                            k <= np,
                            views(terms@) + part_terms(wv, pv, k as int) == base + part_terms(wv, pv, 0),
                        decreases np - k,
                    {
                        let ps = parts[k];
                        let pe = if k + 1 < np { parts[k + 1] } else { w.len() };
                        assert(pv[k as int] == ps);
                        assert(k + 1 < np ==> pv[k + 1] == pe);
                        let ghost p = part_at(wv, pv, k as int);
                        let ghost before = views(terms@);
                        if pe - ps >= 3 {
                            let piece = copy_range(&w, ps, pe);
                            assert(piece@ =~= p);
                            let piece_s = string_from_chars(&piece);
                            let lowered = str_to_lowercase(piece_s.as_str());
                            let lowered_chars = chars_of(lowered.as_str());
                            if count_alphabetic(&lowered_chars) >= 3 {
                                terms.push(lowered);
                                assert(views(terms@) =~= before + seq![lowercase(p)]);
                            }
                        }
                        assert(part_terms(wv, pv, k as int) =~= (if p.len() >= 3 && alphabetic_count(lowercase(p)) >= 3 {
                            seq![lowercase(p)]
                        } else {
                            Seq::<Seq<char>>::empty()
                        }) + part_terms(wv, pv, k + 1));
                        k = k + 1;
                        assert(views(terms@) + part_terms(wv, pv, k as int) =~= base + part_terms(wv, pv, 0));
                    }
                }
                proof {
                    let extra = if pv.len() > 1 { part_terms(wv, pv, 0) } else { Seq::<Seq<char>>::empty() };
                    assert(part_terms(wv, pv, pv.len() as int) =~= Seq::<Seq<char>>::empty());
                    assert(views(terms@) =~= base + extra);
                    assert(word_terms(input@, chars@, start as int, i as int) == Some(seq![chars@.subrange(start as int, i as int)] + extra));
                    match rest {
                        None => {},
                        Some(r) => {
                            assert(word_done + (seq![chars@.subrange(start as int, i as int)] + extra + r) =~= views(terms@) + r);
                        },
                    }
                }
            } else {
                proof {
                    assert(word_terms(input@, chars@, start as int, i as int) == Some(Seq::<Seq<char>>::empty()));
                    match rest {
                        None => {},
                        Some(r) => {
                            assert(Seq::<Seq<char>>::empty() + r =~= r);
                            assert(word_done + r =~= views(terms@) + r);
                        },
                    }
                }
            }
        }
    }
    assert(views(terms@) + Seq::<Seq<char>>::empty() =~= views(terms@));
    Some(terms)
}

} // verus!
