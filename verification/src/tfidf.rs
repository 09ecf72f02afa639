//! A TF-IDF search index over documents split into text chunks.
//!
//! Each chunk is kept as the frequencies of its terms, and the index counts,
//! for every term, the chunks that contain it. Scores themselves are
//! floating point and are computed outside this library from the counts that
//! `score_inputs` returns.
use vstd::prelude::*;
use crate::json::{parse_string_array, string_array};
use crate::terms::{split_terms, split_terms_spec};
use crate::diff::views;

verus! {

/// A term with a count, seen through its text.
pub type TermCount = (Seq<char>, u32);

/// The view of a list of `(term, count)` pairs.
pub open spec fn counts_view(v: Seq<(String, u32)>) -> Seq<TermCount> {
    v.map_values(|p: (String, u32)| (p.0@, p.1))
}

/// The count recorded for `t` in a list of `(term, count)` pairs, or 0.
pub open spec fn count_of(list: Seq<TermCount>, t: Seq<char>) -> nat
    decreases list.len(),
{
    if list.len() == 0 {
        0
    } else if list[0].0 == t {
        list[0].1 as nat
    } else {
        count_of(list.drop_first(), t)
    }
}

/// Whether `t` is a term of the list.
pub open spec fn has_term(list: Seq<TermCount>, t: Seq<char>) -> bool {
    exists|i: int| 0 <= i < list.len() && (#[trigger] list[i]).0 == t
}

/// No term occurs twice in the list.
pub open spec fn distinct_terms(list: Seq<TermCount>) -> bool {
    forall|i: int, j: int| 0 <= i < j < list.len() ==> (#[trigger] list[i]).0 != (#[trigger] list[j]).0
}

/// The number of times `t` occurs in `terms`.
pub open spec fn occurrences(terms: Seq<Seq<char>>, t: Seq<char>) -> nat
    decreases terms.len(),
{
    if terms.len() == 0 {
        0
    } else {
        occurrences(terms.drop_last(), t) + (if terms.last() == t { 1nat } else { 0nat })
    }
}

/// One more occurrence of `t`: its count goes up by one, or it is appended
/// with count one.
pub open spec fn add_term(list: Seq<TermCount>, t: Seq<char>) -> Seq<TermCount> {
    if has_term(list, t) {
        let i = choose|i: int| 0 <= i < list.len() && (#[trigger] list[i]).0 == t;
        list.update(i, (t, (list[i].1 + 1) as u32))
    } else {
        list.push((t, 1u32))
    }
}

/// The term frequencies of a list of terms: each distinct term once, in the
/// order of its first occurrence, with the number of its occurrences.
pub open spec fn term_counts(terms: Seq<Seq<char>>) -> Seq<TermCount>
    decreases terms.len(),
{
    if terms.len() == 0 {
        Seq::empty()
    } else {
        add_term(term_counts(terms.drop_last()), terms.last())
    }
}

/// With distinct terms, the count of a term is found at its unique index.
proof fn lemma_count_at(list: Seq<TermCount>, i: int)
    requires
        distinct_terms(list),
        0 <= i < list.len(),
    ensures
        count_of(list, list[i].0) == list[i].1,
    decreases list.len(),
{
    if i > 0 {
        let t = list.drop_first();
        assert(list[0].0 != list[i].0);
        assert(t[i - 1] == list[i]);
        assert(distinct_terms(t)) by {
            assert forall|a: int, b: int| 0 <= a < b < t.len() implies (#[trigger] t[a]).0 != (#[trigger] t[b]).0 by {
                assert(t[a] == list[a + 1] && t[b] == list[b + 1]);
            }
        }
        lemma_count_at(t, i - 1);
    }
}

/// A term that is not in the list counts zero.
proof fn lemma_count_absent(list: Seq<TermCount>, t: Seq<char>)
    requires
        !has_term(list, t),
    ensures
        count_of(list, t) == 0,
    decreases list.len(),
{
    if list.len() > 0 {
        let tl = list.drop_first();
        assert(!has_term(tl, t)) by {
            if has_term(tl, t) {
                let i = choose|i: int| 0 <= i < tl.len() && (#[trigger] tl[i]).0 == t;
                assert(list[i + 1] == tl[i]);
            }
        }
        lemma_count_absent(tl, t);
    }
}

/// The term frequencies have distinct terms, and each term's count is its
/// number of occurrences.
pub proof fn lemma_term_counts(terms: Seq<Seq<char>>)
    requires
        terms.len() <= u32::MAX,
    ensures
        distinct_terms(term_counts(terms)),
        forall|t: Seq<char>| #[trigger] count_of(term_counts(terms), t) == occurrences(terms, t),
        forall|t: Seq<char>| has_term(term_counts(terms), t) <==> occurrences(terms, t) > 0,
        forall|i: int| 0 <= i < term_counts(terms).len() ==> (#[trigger] term_counts(terms)[i]).1 > 0,
    decreases terms.len(),
{
    if terms.len() > 0 {
        let prev = terms.drop_last();
        let l = term_counts(prev);
        let x = terms.last();
        lemma_term_counts(prev);
        let nl = term_counts(terms);
        assert(nl == add_term(l, x));
        if has_term(l, x) {
            let i = choose|i: int| 0 <= i < l.len() && (#[trigger] l[i]).0 == x;
            lemma_count_at(l, i);
            assert(occurrences(prev, x) <= prev.len()) by {
                lemma_occurrences_bound(prev, x);
            }
            assert(nl[i].1 == l[i].1 + 1);
            assert forall|t: Seq<char>| #[trigger] count_of(nl, t) == occurrences(terms, t) by {
                if t == x {
                    lemma_count_at(nl, i);
                } else {
                    if has_term(l, t) {
                        let j = choose|j: int| 0 <= j < l.len() && (#[trigger] l[j]).0 == t;
                        lemma_count_at(l, j);
                        lemma_count_at(nl, j);
                    } else {
                        lemma_count_absent(l, t);
                        assert(!has_term(nl, t)) by {
                            if has_term(nl, t) {
                                let j = choose|j: int| 0 <= j < nl.len() && (#[trigger] nl[j]).0 == t;
                                assert(l[j].0 == t);
                            }
                        }
                        lemma_count_absent(nl, t);
                    }
                }
            }
            assert forall|t: Seq<char>| has_term(nl, t) <==> occurrences(terms, t) > 0 by {
                assert(occurrences(terms, t) == occurrences(prev, t) + (if x == t { 1nat } else { 0nat }));
                assert(has_term(l, t) <==> occurrences(prev, t) > 0);
                if has_term(nl, t) {
                    let j = choose|j: int| 0 <= j < nl.len() && (#[trigger] nl[j]).0 == t;
                    if t != x {
                        assert(l[j].0 == t);
                        assert(has_term(l, t));
                    }
                }
                if has_term(l, t) {
                    let j = choose|j: int| 0 <= j < l.len() && (#[trigger] l[j]).0 == t;
                    assert(nl[j].0 == t);
                }
                if t == x {
                    assert(nl[i].0 == t);
                }
            }
        } else {
            lemma_count_absent(l, x);
            assert(nl == l.push((x, 1u32)));
            assert(distinct_terms(nl)) by {
                assert forall|a: int, b: int| 0 <= a < b < nl.len() implies (#[trigger] nl[a]).0 != (#[trigger] nl[b]).0 by {
                    if b == l.len() {
                        assert(nl[a] == l[a]);
                    } else {
                        assert(nl[a] == l[a] && nl[b] == l[b]);
                    }
                }
            }
            assert forall|t: Seq<char>| #[trigger] count_of(nl, t) == occurrences(terms, t) by {
                if t == x {
                    lemma_count_at(nl, l.len() as int);
                } else if has_term(l, t) {
                    let j = choose|j: int| 0 <= j < l.len() && (#[trigger] l[j]).0 == t;
                    lemma_count_at(l, j);
                    lemma_count_at(nl, j);
                } else {
                    lemma_count_absent(l, t);
                    assert(!has_term(nl, t)) by {
                        if has_term(nl, t) {
                            let j = choose|j: int| 0 <= j < nl.len() && (#[trigger] nl[j]).0 == t;
                            assert(l[j].0 == t);
                        }
                    }
                    lemma_count_absent(nl, t);
                }
            }
            assert forall|t: Seq<char>| has_term(nl, t) <==> occurrences(terms, t) > 0 by {
                assert(occurrences(terms, t) == occurrences(prev, t) + (if x == t { 1nat } else { 0nat }));
                assert(has_term(l, t) <==> occurrences(prev, t) > 0);
                if has_term(nl, t) {
                    let j = choose|j: int| 0 <= j < nl.len() && (#[trigger] nl[j]).0 == t;
                    if t != x {
                        assert(l[j].0 == t);
                        assert(has_term(l, t));
                    }
                }
                if has_term(l, t) {
                    let j = choose|j: int| 0 <= j < l.len() && (#[trigger] l[j]).0 == t;
                    assert(nl[j].0 == t);
                }
                if t == x {
                    assert(nl[l.len() as int].0 == t);
                }
            }
        }
    }
}

/// A term occurs at most as often as there are terms.
proof fn lemma_occurrences_bound(terms: Seq<Seq<char>>, t: Seq<char>)
    ensures
        occurrences(terms, t) <= terms.len(),
    decreases terms.len(),
{
    if terms.len() > 0 {
        lemma_occurrences_bound(terms.drop_last(), t);
    }
}

/// With distinct terms, the count of `t` is the count at its index if it is
/// there, and 0 otherwise.
proof fn lemma_count_found(list: Seq<TermCount>, t: Seq<char>, j: int)
    requires
        distinct_terms(list),
        0 <= j < list.len(),
        list[j].0 == t,
    ensures
        count_of(list, t) == list[j].1,
{
    lemma_count_at(list, j);
}

/// Sublists of a list with distinct terms have distinct terms.
proof fn lemma_distinct_update(list: Seq<TermCount>, j: int, c: u32)
    requires
        distinct_terms(list),
        0 <= j < list.len(),
    ensures
        distinct_terms(list.update(j, (list[j].0, c))),
        distinct_terms(list.remove(j)),
{
    let u = list.update(j, (list[j].0, c));
    assert forall|a: int, b: int| 0 <= a < b < u.len() implies (#[trigger] u[a]).0 != (#[trigger] u[b]).0 by {
        assert(u[a].0 == list[a].0 && u[b].0 == list[b].0);
    }
    let r = list.remove(j);
    assert forall|a: int, b: int| 0 <= a < b < r.len() implies (#[trigger] r[a]).0 != (#[trigger] r[b]).0 by {
        let a2 = if a < j { a } else { a + 1 };
        let b2 = if b < j { b } else { b + 1 };
        assert(r[a] == list[a2] && r[b] == list[b2]);
    }
}

/// Counts after changing the count at index `j`, or removing it.
proof fn lemma_count_after_change(list: Seq<TermCount>, j: int, c: u32, t: Seq<char>)
    requires
        distinct_terms(list),
        0 <= j < list.len(),
    ensures
        count_of(list.update(j, (list[j].0, c)), t) == (if t == list[j].0 { c as nat } else { count_of(list, t) }),
        count_of(list.remove(j), t) == (if t == list[j].0 { 0 } else { count_of(list, t) }),
{
    let u = list.update(j, (list[j].0, c));
    let r = list.remove(j);
    lemma_distinct_update(list, j, c);
    if t == list[j].0 {
        lemma_count_found(u, t, j);
        assert(!has_term(r, t)) by {
            if has_term(r, t) {
                let a = choose|a: int| 0 <= a < r.len() && (#[trigger] r[a]).0 == t;
                let a2 = if a < j { a } else { a + 1 };
                assert(r[a] == list[a2]);
            }
        }
        lemma_count_absent(r, t);
    } else if has_term(list, t) {
        let a = choose|a: int| 0 <= a < list.len() && (#[trigger] list[a]).0 == t;
        lemma_count_found(list, t, a);
        lemma_count_found(u, t, a);
        let a2 = if a < j { a } else { a - 1 };
        assert(r[a2] == list[a]);
        lemma_count_found(r, t, a2);
    } else {
        lemma_count_absent(list, t);
        assert(!has_term(u, t)) by {
            if has_term(u, t) {
                let a = choose|a: int| 0 <= a < u.len() && (#[trigger] u[a]).0 == t;
                assert(list[a].0 == t);
            }
        }
        assert(!has_term(r, t)) by {
            if has_term(r, t) {
                let a = choose|a: int| 0 <= a < r.len() && (#[trigger] r[a]).0 == t;
                let a2 = if a < j { a } else { a + 1 };
                assert(r[a] == list[a2]);
            }
        }
        lemma_count_absent(u, t);
        lemma_count_absent(r, t);
    }
}

/// Counts after appending a new term.
proof fn lemma_count_after_push(list: Seq<TermCount>, x: Seq<char>, c: u32, t: Seq<char>)
    requires
        distinct_terms(list),
        !has_term(list, x),
    ensures
        distinct_terms(list.push((x, c))),
        count_of(list.push((x, c)), t) == (if t == x { c as nat } else { count_of(list, t) }),
{
    let p = list.push((x, c));
    assert forall|a: int, b: int| 0 <= a < b < p.len() implies (#[trigger] p[a]).0 != (#[trigger] p[b]).0 by {
        assert(p[a] == list[a]);
        if b < list.len() {
            assert(p[b] == list[b]);
        } else {
            assert(has_term(list, p[a].0) ==> true);
            if p[a].0 == x {
                assert(list[a].0 == x);
            }
        }
    }
    if t == x {
        lemma_count_found(p, t, list.len() as int);
    } else if has_term(list, t) {
        let a = choose|a: int| 0 <= a < list.len() && (#[trigger] list[a]).0 == t;
        lemma_count_found(list, t, a);
        assert(p[a] == list[a]);
        lemma_count_found(p, t, a);
    } else {
        lemma_count_absent(list, t);
        assert(!has_term(p, t)) by {
            if has_term(p, t) {
                let a = choose|a: int| 0 <= a < p.len() && (#[trigger] p[a]).0 == t;
                if a < list.len() {
                    assert(list[a] == p[a]);
                }
            }
        }
        lemma_count_absent(p, t);
    }
}

/// The index of term `t` in `list`, if it is there.
fn find_term(list: &Vec<(String, u32)>, t: &String) -> (r: Option<usize>)
    ensures
        r matches Some(j) ==> j < list@.len() && list@[j as int].0@ == t@,
        r is None ==> !has_term(counts_view(list@), t@),
{
    let mut i: usize = 0;
    while i < list.len()
        invariant
            i <= list@.len(),
            forall|a: int| 0 <= a < i ==> (#[trigger] list@[a]).0@ != t@,
        decreases list@.len() - i,
    {
        if list[i].0 == *t {
            return Some(i);
        }
        i = i + 1;
    }
    assert(!has_term(counts_view(list@), t@)) by {
        if has_term(counts_view(list@), t@) {
            let a = choose|a: int| 0 <= a < counts_view(list@).len() && (#[trigger] counts_view(list@)[a]).0 == t@;
            assert(list@[a].0@ == t@);
        }
    }
    None
}

/// The term frequencies of a text, in the order of each term's first
/// occurrence; `None` where splitting the text fails.
pub fn term_frequencies(input: &str) -> (r: Option<Vec<(String, u32)>>)
    requires
        split_terms_spec(input@) matches Some(terms) ==> terms.len() <= u32::MAX,
    ensures
        r.is_some() == split_terms_spec(input@).is_some(),
        r matches Some(v) ==> counts_view(v@) == term_counts(split_terms_spec(input@).unwrap()),
{
    let terms = match split_terms(input) {
        None => return None,
        Some(t) => t,
    };
    let ghost all = views(terms@);
    let mut tf: Vec<(String, u32)> = Vec::new();
    let mut k: usize = 0;
    assert(counts_view(tf@) =~= term_counts(all.take(0)));
    while k < terms.len()
        invariant
            all == views(terms@),
            all.len() <= u32::MAX,
            k <= all.len(),
            counts_view(tf@) == term_counts(all.take(k as int)),
        decreases all.len() - k,
    {
        let ghost pre = all.take(k as int);
        let ghost x = all[k as int];
        proof {
            assert(all.take(k + 1).drop_last() =~= pre);
            lemma_term_counts(pre);
            lemma_occurrences_bound(pre, x);
        }
        let ghost before = counts_view(tf@);
        match find_term(&tf, &terms[k]) {
            Some(j) => {
                proof {
                    lemma_count_found(before, x, j as int);
                }
                let c = tf[j].1;
                let name = tf[j].0.clone();
                tf.set(j, (name, c + 1));
                proof {
                    let i = choose|i: int| 0 <= i < before.len() && (#[trigger] before[i]).0 == x;
                    assert(has_term(before, x)) by {
                        assert(before[j as int].0 == x);
                    }
                    if i != j {
                        assert(before[i].0 == before[j as int].0);
                    }
                    assert(counts_view(tf@) =~= before.update(j as int, (x, (before[j as int].1 + 1) as u32)));
                }
            }
            None => {
                let name = terms[k].clone();
                tf.push((name, 1));
                assert(counts_view(tf@) =~= before.push((x, 1u32)));
            }
        }
        k = k + 1;
    }
    assert(all.take(all.len() as int) =~= all);
    Some(tf)
}

/// A chunk seen as its term frequencies.
pub type ChunkView = Seq<TermCount>;

/// A document seen as its key and its chunks.
pub type DocView = (Seq<char>, Seq<ChunkView>);

/// The view of a stored chunk list.
pub open spec fn chunks_view(cs: Seq<Vec<(String, u32)>>) -> Seq<ChunkView> {
    cs.map_values(|c: Vec<(String, u32)>| counts_view(c@))
}

/// The view of the stored documents.
pub open spec fn docs_view(ds: Seq<(String, Vec<Vec<(String, u32)>>)>) -> Seq<DocView> {
    ds.map_values(|d: (String, Vec<Vec<(String, u32)>>)| (d.0@, chunks_view(d.1@)))
}

/// The number of chunks that contain `t`.
pub open spec fn chunks_with(cs: Seq<ChunkView>, t: Seq<char>) -> nat
    decreases cs.len(),
{
    if cs.len() == 0 {
        0
    } else {
        (if has_term(cs[0], t) { 1nat } else { 0nat }) + chunks_with(cs.drop_first(), t)
    }
}

/// The number of chunks, over all documents, that contain `t`.
pub open spec fn docs_with(ds: Seq<DocView>, t: Seq<char>) -> nat
    decreases ds.len(),
{
    if ds.len() == 0 {
        0
    } else {
        chunks_with(ds[0].1, t) + docs_with(ds.drop_first(), t)
    }
}

/// The number of chunks over all documents.
pub open spec fn total_chunks(ds: Seq<DocView>) -> nat
    decreases ds.len(),
{
    if ds.len() == 0 {
        0
    } else {
        ds[0].1.len() + total_chunks(ds.drop_first())
    }
}

/// The documents without the one stored under `key`.
pub open spec fn remove_key(ds: Seq<DocView>, key: Seq<char>) -> Seq<DocView>
    decreases ds.len(),
{
    if ds.len() == 0 {
        ds
    } else if ds[0].0 == key {
        ds.drop_first()
    } else {
        seq![ds[0]] + remove_key(ds.drop_first(), key)
    }
}

/// No key is stored twice.
pub open spec fn keys_distinct(ds: Seq<DocView>) -> bool {
    forall|i: int, j: int| 0 <= i < j < ds.len() ==> (#[trigger] ds[i]).0 != (#[trigger] ds[j]).0
}

/// Every chunk lists each of its terms once.
pub open spec fn chunks_distinct(ds: Seq<DocView>) -> bool {
    forall|i: int, k: int| 0 <= i < ds.len() && 0 <= k < ds[i].1.len() ==> distinct_terms(#[trigger] ds[i].1[k])
}

proof fn lemma_chunks_with_concat(a: Seq<ChunkView>, b: Seq<ChunkView>, t: Seq<char>)
    ensures
        chunks_with(a + b, t) == chunks_with(a, t) + chunks_with(b, t),
        chunks_with(a, t) <= a.len(),
    decreases a.len(),
{
    if a.len() == 0 {
        assert(a + b =~= b);
    } else {
        assert((a + b).drop_first() =~= a.drop_first() + b);
        assert((a + b)[0] == a[0]);
        lemma_chunks_with_concat(a.drop_first(), b, t);
    }
}

proof fn lemma_docs_concat(a: Seq<DocView>, b: Seq<DocView>, t: Seq<char>)
    ensures
        docs_with(a + b, t) == docs_with(a, t) + docs_with(b, t),
        total_chunks(a + b) == total_chunks(a) + total_chunks(b),
        docs_with(a, t) <= total_chunks(a),
    decreases a.len(),
{
    if a.len() == 0 {
        assert(a + b =~= b);
    } else {
        assert((a + b).drop_first() =~= a.drop_first() + b);
        assert((a + b)[0] == a[0]);
        lemma_docs_concat(a.drop_first(), b, t);
        lemma_chunks_with_concat(a[0].1, Seq::empty(), t);
    }
}

/// Removing a stored key takes out exactly its document.
proof fn lemma_remove_key(ds: Seq<DocView>, key: Seq<char>, d: int)
    requires
        keys_distinct(ds),
        0 <= d < ds.len(),
        ds[d].0 == key,
    ensures
        remove_key(ds, key) == ds.take(d) + ds.skip(d + 1),
        ds == ds.take(d) + seq![ds[d]] + ds.skip(d + 1),
    decreases ds.len(),
{
    assert(ds =~= ds.take(d) + seq![ds[d]] + ds.skip(d + 1));
    if d == 0 {
        assert(ds.take(0) + ds.skip(1) =~= ds.drop_first());
    } else {
        let tl = ds.drop_first();
        assert(ds[0].0 != key) by {
            assert(ds[0].0 != ds[d].0);
        }
        assert(keys_distinct(tl)) by {
            assert forall|i: int, j: int| 0 <= i < j < tl.len() implies (#[trigger] tl[i]).0 != (#[trigger] tl[j]).0 by {
                assert(tl[i] == ds[i + 1] && tl[j] == ds[j + 1]);
            }
        }
        assert(tl[d - 1] == ds[d]);
        lemma_remove_key(tl, key, d - 1);
        assert(seq![ds[0]] + (tl.take(d - 1) + tl.skip(d)) =~= ds.take(d) + ds.skip(d + 1));
    }
}

/// Removing a key that is not stored changes nothing.
proof fn lemma_remove_absent(ds: Seq<DocView>, key: Seq<char>)
    requires
        forall|i: int| 0 <= i < ds.len() ==> (#[trigger] ds[i]).0 != key,
    ensures
        remove_key(ds, key) == ds,
    decreases ds.len(),
{
    if ds.len() > 0 {
        let tl = ds.drop_first();
        assert forall|i: int| 0 <= i < tl.len() implies (#[trigger] tl[i]).0 != key by {
            assert(tl[i] == ds[i + 1]);
        }
        lemma_remove_absent(tl, key);
        assert(seq![ds[0]] + tl =~= ds);
    }
}

/// Removing the key of a document pushed after documents without that key
/// takes out just the pushed one.
proof fn lemma_remove_pushed(ds: Seq<DocView>, d: DocView)
    requires
        forall|i: int| 0 <= i < ds.len() ==> (#[trigger] ds[i]).0 != d.0,
    ensures
        remove_key(ds.push(d), d.0) == ds,
    decreases ds.len(),
{
    let p = ds.push(d);
    if ds.len() == 0 {
        assert(p.drop_first() =~= ds);
    } else {
        let tl = ds.drop_first();
        assert forall|i: int| 0 <= i < tl.len() implies (#[trigger] tl[i]).0 != d.0 by {
            assert(tl[i] == ds[i + 1]);
        }
        lemma_remove_pushed(tl, d);
        assert(p[0] == ds[0]);
        assert(p.drop_first() =~= tl.push(d));
        assert(seq![ds[0]] + tl =~= ds);
    }
}

/// A term search index.
///
/// Both maps are held as vectors of `(key, value)` pairs with distinct keys:
/// the specifications that vstd gives `std::collections::HashMap` hold only
/// for key types that vstd knows to follow its key model (integers, `bool`
/// and boxes of them), which leaves out `String`; and the order in which a
/// `HashMap` is walked is not fixed, while the order of the documents here
/// decides the order of the scored chunks.
pub struct TfIdfEngine {
    /// The number of chunks over all documents.
    chunk_count: u32,
    /// For each term, the number of chunks that contain it; no term twice and
    /// no count of zero.
    chunk_occurrences: Vec<(String, u32)>,
    /// For each key, the term counts of each chunk of its document, in the
    /// order the documents were stored; no key twice.
    documents: Vec<(String, Vec<Vec<(String, u32)>>)>,
}

impl TfIdfEngine {
    /// The stored documents, in the order they were stored.
    pub closed spec fn documents_view(&self) -> Seq<DocView> {
        docs_view(self.documents@)
    }

    /// The recorded number of chunks that contain `t`.
    pub closed spec fn occurrence_count(&self, t: Seq<char>) -> nat {
        count_of(counts_view(self.chunk_occurrences@), t)
    }

    /// The recorded number of chunks.
    pub closed spec fn chunk_total(&self) -> nat {
        self.chunk_count as nat
    }

    /// The index is consistent: keys are unique, each chunk lists each term
    /// once, every recorded occurrence count is positive and is the number of
    /// chunks containing the term, and the chunk total is the number of
    /// chunks.
    pub closed spec fn well_formed(&self) -> bool {
        let ds = docs_view(self.documents@);
        let occ = counts_view(self.chunk_occurrences@);
        &&& keys_distinct(ds)
        &&& chunks_distinct(ds)
        &&& distinct_terms(occ)
        &&& forall|i: int| 0 <= i < occ.len() ==> (#[trigger] occ[i]).1 > 0
        &&& forall|t: Seq<char>| #[trigger] count_of(occ, t) == docs_with(ds, t)
        &&& self.chunk_count == total_chunks(ds)
    }

    /// In a well-formed index, the occurrence count of every term is the
    /// number of chunks, over all documents, that contain it, and the chunk
    /// total is the number of chunks.
    pub proof fn lemma_counts_consistent(&self, t: Seq<char>)
        requires
            self.well_formed(),
        ensures
            self.occurrence_count(t) == docs_with(self.documents_view(), t),
            self.chunk_total() == total_chunks(self.documents_view()),
            keys_distinct(self.documents_view()),
    {
    }

    /// Deleting a key right after updating it leaves the documents that
    /// deleting it alone would leave: the update is undone.
    pub proof fn lemma_update_then_delete(&self, key: Seq<char>, json: Seq<char>)
        requires
            self.well_formed(),
        ensures
            remove_key(updated_docs(self.documents_view(), key, json), key)
                == remove_key(self.documents_view(), key),
    {
        let ds = self.documents_view();
        let r = remove_key(ds, key);
        lemma_remove_key_gone(ds, key);
        match string_array(json) {
            None => {
                lemma_remove_absent(r, key);
            },
            Some(texts) => {
                lemma_remove_pushed(r, (key, texts_chunks(texts)));
            },
        }
    }

    /// Storing a document under a key that the index does not hold, and then
    /// deleting that key, restores the documents, the chunk total and every
    /// occurrence count.
    pub proof fn lemma_delete_undoes_update(
        before: TfIdfEngine,
        stored: TfIdfEngine,
        after: TfIdfEngine,
        key: Seq<char>,
        json: Seq<char>,
    )
        requires
            before.well_formed(),
            forall|i: int| 0 <= i < before.documents_view().len()
                ==> (#[trigger] before.documents_view()[i]).0 != key,
            stored.well_formed(),
            stored.documents_view() == updated_docs(before.documents_view(), key, json),
            after.well_formed(),
            after.documents_view() == remove_key(stored.documents_view(), key),
        ensures
            after.documents_view() == before.documents_view(),
            after.chunk_total() == before.chunk_total(),
            forall|t: Seq<char>| #[trigger] after.occurrence_count(t) == before.occurrence_count(t),
    {
        before.lemma_update_then_delete(key, json);
        lemma_remove_absent(before.documents_view(), key);
        assert forall|t: Seq<char>| #[trigger] after.occurrence_count(t) == before.occurrence_count(t) by {
            before.lemma_counts_consistent(t);
            after.lemma_counts_consistent(t);
        }
    }

    /// Deleting a key twice is the same as deleting it once.
    pub proof fn lemma_delete_twice(&self, key: Seq<char>)
        requires
            self.well_formed(),
        ensures
            remove_key(remove_key(self.documents_view(), key), key)
                == remove_key(self.documents_view(), key),
    {
        lemma_remove_key_gone(self.documents_view(), key);
        lemma_remove_absent(remove_key(self.documents_view(), key), key);
    }

    /// An empty index.
    pub fn new() -> (e: Self)
        ensures
            e.well_formed(),
            e.documents_view() == Seq::<DocView>::empty(),
            e.chunk_total() == 0,
    {
        let e = TfIdfEngine { chunk_count: 0, chunk_occurrences: Vec::new(), documents: Vec::new() };
        assert(docs_view(e.documents@) =~= Seq::<DocView>::empty());
        assert(counts_view(e.chunk_occurrences@) =~= Seq::<TermCount>::empty());
        e
    }
}

/// The index of the document stored under `key`, if any.
fn find_doc(ds: &Vec<(String, Vec<Vec<(String, u32)>>)>, key: &String) -> (r: Option<usize>)
    ensures
        r matches Some(d) ==> d < ds@.len() && docs_view(ds@)[d as int].0 == key@,
        r is None ==> forall|i: int| 0 <= i < ds@.len() ==> (#[trigger] docs_view(ds@)[i]).0 != key@,
{
    let mut i: usize = 0;
    while i < ds.len()
        invariant
            i <= ds@.len(),
            forall|a: int| 0 <= a < i ==> (#[trigger] docs_view(ds@)[a]).0 != key@,
        decreases ds@.len() - i,
    {
        if ds[i].0 == *key {
            return Some(i);
        }
        i = i + 1;
    }
    None
}

/// One chunk that contains `u` less: its count goes down by one, and the
/// entry goes when it reaches zero.
fn decrement_occurrence(occ: &mut Vec<(String, u32)>, u: &String)
    requires
        distinct_terms(counts_view(old(occ)@)),
        forall|i: int| 0 <= i < old(occ)@.len() ==> (#[trigger] counts_view(old(occ)@)[i]).1 > 0,
        count_of(counts_view(old(occ)@), u@) >= 1,
    ensures
        distinct_terms(counts_view(final(occ)@)),
        forall|i: int| 0 <= i < final(occ)@.len() ==> (#[trigger] counts_view(final(occ)@)[i]).1 > 0,
        forall|t: Seq<char>| #[trigger] count_of(counts_view(final(occ)@), t)
            == if t == u@ { count_of(counts_view(old(occ)@), t) - 1 } else { count_of(counts_view(old(occ)@), t) as int },
{
    let ghost before = counts_view(occ@);
    match find_term(occ, u) {
        Some(j) => {
            proof {
                lemma_count_found(before, u@, j as int);
            }
            let c = occ[j].1;
            if c <= 1 {
                occ.remove(j);
                assert(counts_view(occ@) =~= before.remove(j as int));
                proof {
                    lemma_distinct_update(before, j as int, c);
                    assert forall|t: Seq<char>| #[trigger] count_of(counts_view(occ@), t)
                        == if t == u@ { count_of(before, t) - 1 } else { count_of(before, t) as int } by {
                        lemma_count_after_change(before, j as int, c, t);
                    }
                    assert forall|i: int| 0 <= i < occ@.len() implies (#[trigger] counts_view(occ@)[i]).1 > 0 by {
                        let i2 = if i < j { i } else { i + 1 };
                        assert(counts_view(occ@)[i] == before[i2]);
                    }
                }
            } else {
                let name = occ[j].0.clone();
                occ.set(j, (name, c - 1));
                assert(counts_view(occ@) =~= before.update(j as int, (u@, (c - 1) as u32)));
                proof {
                    lemma_distinct_update(before, j as int, (c - 1) as u32);
                    assert forall|t: Seq<char>| #[trigger] count_of(counts_view(occ@), t)
                        == if t == u@ { count_of(before, t) - 1 } else { count_of(before, t) as int } by {
                        lemma_count_after_change(before, j as int, (c - 1) as u32, t);
                    }
                    assert forall|i: int| 0 <= i < occ@.len() implies (#[trigger] counts_view(occ@)[i]).1 > 0 by {
                        if i != j {
                            assert(counts_view(occ@)[i] == before[i]);
                        }
                    }
                }
            }
        }
        None => {
            proof {
                lemma_count_absent(before, u@);
            }
        }
    }
}

/// `has_term` on a list that starts with the given term.
proof fn lemma_has_term_front(list: Seq<TermCount>, ti: int, t: Seq<char>)
    requires
        distinct_terms(list),
        0 <= ti < list.len(),
    ensures
        has_term(list.skip(ti), t) == (has_term(list.skip(ti + 1), t) || list[ti].0 == t),
        !has_term(list.skip(ti + 1), list[ti].0),
{
    let a = list.skip(ti);
    let b = list.skip(ti + 1);
    if has_term(a, t) {
        let i = choose|i: int| 0 <= i < a.len() && (#[trigger] a[i]).0 == t;
        if i > 0 {
            assert(b[i - 1] == a[i]);
        }
    }
    if has_term(b, t) {
        let i = choose|i: int| 0 <= i < b.len() && (#[trigger] b[i]).0 == t;
        assert(a[i + 1] == b[i]);
    }
    if list[ti].0 == t {
        assert(a[0] == list[ti]);
    }
    if has_term(b, list[ti].0) {
        let i = choose|i: int| 0 <= i < b.len() && (#[trigger] b[i]).0 == list[ti].0;
        assert(b[i] == list[ti + 1 + i]);
    }
}

impl TfIdfEngine {
    /// Removes the document stored under `key`, if any, with its chunks and
    /// their term occurrences.
    pub fn delete_document(&mut self, key: &str)
        requires
            old(self).well_formed(),
        ensures
            final(self).well_formed(),
            final(self).documents_view() == remove_key(old(self).documents_view(), key@),
    {
        let key_s = key.to_string();
        let ghost ds = docs_view(self.documents@);
        match find_doc(&self.documents, &key_s) {
            None => {
                proof {
                    lemma_remove_absent(ds, key@);
                }
            }
            Some(d) => {
                let (_, chunks) = self.documents.remove(d);
                let ghost ds_del = docs_view(self.documents@);
                let ghost rv = chunks_view(chunks@);
                proof {
                    lemma_remove_key(ds, key@, d as int);
                    assert(ds_del =~= ds.take(d as int) + ds.skip(d + 1));
                    assert(ds[d as int].1 == rv);
                    let one = seq![ds[d as int]];
                    assert(one[0] == ds[d as int]);
                    assert(one.drop_first() =~= Seq::<DocView>::empty());
                    assert(one.drop_first().len() == 0);
                    assert(total_chunks(one.drop_first()) == 0);
                    assert(one[0].1 == rv);
                    assert(total_chunks(one) == one[0].1.len() + total_chunks(one.drop_first()));
                    assert(total_chunks(one) == rv.len());
                    assert forall|t: Seq<char>| docs_with(ds, t) == docs_with(ds_del, t) + chunks_with(rv, t) by {
                        assert(docs_with(one.drop_first(), t) == 0);
                        assert(docs_with(one, t) == chunks_with(one[0].1, t) + docs_with(one.drop_first(), t));
                        assert(docs_with(one, t) == chunks_with(rv, t));
                        lemma_docs_concat(ds.take(d as int) + seq![ds[d as int]], ds.skip(d + 1), t);
                        lemma_docs_concat(ds.take(d as int), seq![ds[d as int]], t);
                        lemma_docs_concat(ds.take(d as int), ds.skip(d + 1), t);
                        assert(seq![ds[d as int]].drop_first() =~= Seq::<DocView>::empty());
                    }
                    lemma_docs_concat(ds.take(d as int) + seq![ds[d as int]], ds.skip(d + 1), Seq::empty());
                    lemma_docs_concat(ds.take(d as int), seq![ds[d as int]], Seq::empty());
                    lemma_docs_concat(ds.take(d as int), ds.skip(d + 1), Seq::empty());
                    assert(seq![ds[d as int]].drop_first() =~= Seq::<DocView>::empty());
                    assert(keys_distinct(ds_del)) by {
                        assert forall|i: int, j: int| 0 <= i < j < ds_del.len() implies (#[trigger] ds_del[i]).0 != (#[trigger] ds_del[j]).0 by {
                            let i2 = if i < d { i } else { i + 1 };
                            let j2 = if j < d { j } else { j + 1 };
                            assert(ds_del[i] == ds[i2] && ds_del[j] == ds[j2]);
                        }
                    }
                    assert(chunks_distinct(ds_del)) by {
                        assert forall|i: int, k: int| 0 <= i < ds_del.len() && 0 <= k < ds_del[i].1.len() implies distinct_terms(#[trigger] ds_del[i].1[k]) by {
                            let i2 = if i < d { i } else { i + 1 };
                            assert(ds_del[i] == ds[i2]);
                        }
                    }
                    assert forall|k: int| 0 <= k < rv.len() implies distinct_terms(#[trigger] rv[k]) by {
                        assert(rv[k] == ds[d as int].1[k]);
                    }
                }
                self.chunk_count = self.chunk_count - chunks.len() as u32;
                let mut ci: usize = 0;
                assert(rv.skip(0) =~= rv);
                while ci < chunks.len()
                    invariant
                        docs_view(self.documents@) == ds_del,
                        self.chunk_count == total_chunks(ds_del),
                        keys_distinct(ds_del),
                        chunks_distinct(ds_del),
                        rv == chunks_view(chunks@),
                        forall|k: int| 0 <= k < rv.len() ==> distinct_terms(#[trigger] rv[k]),
                        ci <= rv.len(),
                        distinct_terms(counts_view(self.chunk_occurrences@)),
                        forall|i: int| 0 <= i < self.chunk_occurrences@.len() ==> (#[trigger] counts_view(self.chunk_occurrences@)[i]).1 > 0,
                        forall|t: Seq<char>| #[trigger] count_of(counts_view(self.chunk_occurrences@), t)
                            == docs_with(ds_del, t) + chunks_with(rv.skip(ci as int), t),
                    decreases rv.len() - ci,
                {
                    let chunk = &chunks[ci];
                    let ghost cv = rv[ci as int];
                    assert(cv == counts_view(chunk@));
                    let mut ti: usize = 0;
                    proof {
                        assert(rv.skip(ci as int).drop_first() =~= rv.skip(ci + 1));
                        assert(rv.skip(ci as int)[0] == cv);
                        assert(cv.skip(0) =~= cv);
                    }
                    while ti < chunk.len()
                        invariant
                            docs_view(self.documents@) == ds_del,
                            self.chunk_count == total_chunks(ds_del),
                            cv == counts_view(chunk@),
                            distinct_terms(cv),
                            ti <= cv.len(),
                            distinct_terms(counts_view(self.chunk_occurrences@)),
                            forall|i: int| 0 <= i < self.chunk_occurrences@.len() ==> (#[trigger] counts_view(self.chunk_occurrences@)[i]).1 > 0,
                            forall|t: Seq<char>| #[trigger] count_of(counts_view(self.chunk_occurrences@), t)
                                == docs_with(ds_del, t) + chunks_with(rv.skip(ci + 1), t)
                                    + (if has_term(cv.skip(ti as int), t) { 1nat } else { 0nat }),
                        decreases cv.len() - ti,
                    {
                        let ghost u = cv[ti as int].0;
                        proof {
                            lemma_has_term_front(cv, ti as int, u);
                            assert(count_of(counts_view(self.chunk_occurrences@), u) >= 1);
                        }
                        decrement_occurrence(&mut self.chunk_occurrences, &chunk[ti].0);
                        proof {
                            assert forall|t: Seq<char>| #[trigger] count_of(counts_view(self.chunk_occurrences@), t)
                                == docs_with(ds_del, t) + chunks_with(rv.skip(ci + 1), t)
                                    + (if has_term(cv.skip(ti + 1), t) { 1nat } else { 0nat }) by {
                                lemma_has_term_front(cv, ti as int, t);
                            }
                        }
                        ti = ti + 1;
                    }
                    proof {
                        assert(cv.skip(cv.len() as int).len() == 0);
                        assert forall|t: Seq<char>| !has_term(cv.skip(cv.len() as int), t) by {}
                    }
                    ci = ci + 1;
                }
                proof {
                    assert(rv.skip(rv.len() as int) =~= Seq::<ChunkView>::empty());
                }
            }
        }
    }
}

/// Every text splits into terms, and into no more than `u32::MAX` of them.
pub open spec fn texts_split(texts: Seq<Seq<char>>) -> bool {
    forall|i: int| 0 <= i < texts.len() ==> ((#[trigger] split_terms_spec(texts[i])) matches Some(ts) && ts.len() <= u32::MAX)
}

/// The chunks that a list of texts becomes: the term frequencies of each.
pub open spec fn texts_chunks(texts: Seq<Seq<char>>) -> Seq<ChunkView> {
    Seq::new(texts.len(), |i: int| term_counts(split_terms_spec(texts[i]).unwrap()))
}

/// Updating `key` with the JSON text `json` goes through: each chunk text
/// splits, and the chunk total stays within `u32`.
pub open spec fn update_ok(docs: Seq<DocView>, key: Seq<char>, json: Seq<char>) -> bool {
    match string_array(json) {
        None => true,
        Some(texts) => texts_split(texts) && total_chunks(remove_key(docs, key)) + texts.len() <= u32::MAX,
    }
}

/// The documents after updating `key` with `json`: the old document under
/// `key` goes, and, if `json` is an array of strings, a document with one
/// chunk per string is stored last.
pub open spec fn updated_docs(docs: Seq<DocView>, key: Seq<char>, json: Seq<char>) -> Seq<DocView> {
    match string_array(json) {
        None => remove_key(docs, key),
        Some(texts) => remove_key(docs, key).push((key, texts_chunks(texts))),
    }
}

/// After removing a key from documents with distinct keys, no document has
/// it and the keys stay distinct.
proof fn lemma_remove_key_gone(ds: Seq<DocView>, key: Seq<char>)
    requires
        keys_distinct(ds),
    ensures
        forall|i: int| 0 <= i < remove_key(ds, key).len() ==> (#[trigger] remove_key(ds, key)[i]).0 != key,
    decreases ds.len(),
{
    if ds.len() > 0 {
        let tl = ds.drop_first();
        assert(keys_distinct(tl)) by {
            assert forall|i: int, j: int| 0 <= i < j < tl.len() implies (#[trigger] tl[i]).0 != (#[trigger] tl[j]).0 by {
                assert(tl[i] == ds[i + 1] && tl[j] == ds[j + 1]);
            }
        }
        lemma_remove_key_gone(tl, key);
        if ds[0].0 == key {
            assert forall|i: int| 0 <= i < tl.len() implies (#[trigger] tl[i]).0 != key by {
                assert(tl[i] == ds[i + 1]);
                assert(ds[0].0 != ds[i + 1].0);
            }
        } else {
            let r = seq![ds[0]] + remove_key(tl, key);
            assert forall|i: int| 0 <= i < r.len() implies (#[trigger] r[i]).0 != key by {
                if i > 0 {
                    assert(r[i] == remove_key(tl, key)[i - 1]);
                }
            }
        }
    }
}

/// One more chunk that contains `u`.
fn increment_occurrence(occ: &mut Vec<(String, u32)>, u: &String)
    requires
        distinct_terms(counts_view(old(occ)@)),
        forall|i: int| 0 <= i < old(occ)@.len() ==> (#[trigger] counts_view(old(occ)@)[i]).1 > 0,
        count_of(counts_view(old(occ)@), u@) < u32::MAX,
    ensures
        distinct_terms(counts_view(final(occ)@)),
        forall|i: int| 0 <= i < final(occ)@.len() ==> (#[trigger] counts_view(final(occ)@)[i]).1 > 0,
        forall|t: Seq<char>| #[trigger] count_of(counts_view(final(occ)@), t)
            == count_of(counts_view(old(occ)@), t) + (if t == u@ { 1nat } else { 0nat }),
{
    let ghost before = counts_view(occ@);
    match find_term(occ, u) {
        Some(j) => {
            proof {
                lemma_count_found(before, u@, j as int);
            }
            let c = occ[j].1;
            let name = occ[j].0.clone();
            occ.set(j, (name, c + 1));
            assert(counts_view(occ@) =~= before.update(j as int, (u@, (c + 1) as u32)));
            proof {
                lemma_distinct_update(before, j as int, (c + 1) as u32);
                assert forall|t: Seq<char>| #[trigger] count_of(counts_view(occ@), t)
                    == count_of(before, t) + (if t == u@ { 1nat } else { 0nat }) by {
                    lemma_count_after_change(before, j as int, (c + 1) as u32, t);
                }
                assert forall|i: int| 0 <= i < occ@.len() implies (#[trigger] counts_view(occ@)[i]).1 > 0 by {
                    if i != j {
                        assert(counts_view(occ@)[i] == before[i]);
                    }
                }
            }
        }
        None => {
            let name = u.clone();
            occ.push((name, 1));
            assert(counts_view(occ@) =~= before.push((u@, 1u32)));
            proof {
                lemma_count_absent(before, u@);
                assert forall|t: Seq<char>| #[trigger] count_of(counts_view(occ@), t)
                    == count_of(before, t) + (if t == u@ { 1nat } else { 0nat }) by {
                    lemma_count_after_push(before, u@, 1u32, t);
                }
                lemma_count_after_push(before, u@, 1u32, u@);
                assert forall|i: int| 0 <= i < occ@.len() implies (#[trigger] counts_view(occ@)[i]).1 > 0 by {
                    if i < before.len() {
                        assert(counts_view(occ@)[i] == before[i]);
                    }
                }
            }
        }
    }
}

/// `has_term` on growing prefixes of a list with distinct terms.
proof fn lemma_has_term_prefix(list: Seq<TermCount>, ti: int, t: Seq<char>)
    requires
        distinct_terms(list),
        0 <= ti < list.len(),
    ensures
        has_term(list.take(ti + 1), t) == (has_term(list.take(ti), t) || list[ti].0 == t),
        !has_term(list.take(ti), list[ti].0),
{
    let a = list.take(ti);
    let b = list.take(ti + 1);
    if has_term(b, t) {
        let i = choose|i: int| 0 <= i < b.len() && (#[trigger] b[i]).0 == t;
        if i < ti {
            assert(a[i] == b[i]);
        }
    }
    if has_term(a, t) {
        let i = choose|i: int| 0 <= i < a.len() && (#[trigger] a[i]).0 == t;
        assert(b[i] == a[i]);
    }
    if list[ti].0 == t {
        assert(b[ti] == list[ti]);
    }
    if has_term(a, list[ti].0) {
        let i = choose|i: int| 0 <= i < a.len() && (#[trigger] a[i]).0 == list[ti].0;
        assert(a[i] == list[i]);
    }
}

impl TfIdfEngine {
    /// Replaces the document stored under `key` by the chunks of the JSON
    /// array of strings `chunks_json`. The old document is removed even
    /// when `chunks_json` is not such an array.
    pub fn update_document(&mut self, key: &str, chunks_json: &str)
        requires
            old(self).well_formed(),
            update_ok(old(self).documents_view(), key@, chunks_json@),
        ensures
            final(self).well_formed(),
            final(self).documents_view() == updated_docs(old(self).documents_view(), key@, chunks_json@),
    {
        let ghost old_ds = docs_view(self.documents@);
        self.delete_document(key);
        let ghost ds_del = docs_view(self.documents@);
        let text_chunks = match parse_string_array(chunks_json) {
            Some(v) => v,
            None => return,
        };
        let ghost texts = views(text_chunks@);
        let ghost target = texts_chunks(texts);
        let n = text_chunks.len();
        proof {
            lemma_remove_key_gone(old_ds, key@);
            assert(ds_del == remove_key(old_ds, key@));
        }
        let mut doc_chunks: Vec<Vec<(String, u32)>> = Vec::with_capacity(n);
        let mut k: usize = 0;
        assert(chunks_view(doc_chunks@) =~= target.take(0));
        assert forall|t: Seq<char>| #[trigger] count_of(counts_view(self.chunk_occurrences@), t)
            == docs_with(ds_del, t) + chunks_with(chunks_view(doc_chunks@), t) by {}
        while k < n
            invariant
                n == texts.len(),
                texts == views(text_chunks@),
                target == texts_chunks(texts),
                texts_split(texts),
                total_chunks(ds_del) + n <= u32::MAX,
                docs_view(self.documents@) == ds_del,
                keys_distinct(ds_del),
                chunks_distinct(ds_del),
                self.chunk_count == total_chunks(ds_del),
                k <= n,
                chunks_view(doc_chunks@) == target.take(k as int),
                distinct_terms(counts_view(self.chunk_occurrences@)),
                forall|i: int| 0 <= i < self.chunk_occurrences@.len() ==> (#[trigger] counts_view(self.chunk_occurrences@)[i]).1 > 0,
                forall|t: Seq<char>| #[trigger] count_of(counts_view(self.chunk_occurrences@), t)
                    == docs_with(ds_del, t) + chunks_with(chunks_view(doc_chunks@), t),
            decreases n - k,
        {
            let ghost done = chunks_view(doc_chunks@);
            assert(texts[k as int] == text_chunks@[k as int]@);
            assert(split_terms_spec(texts[k as int]) matches Some(ts) && ts.len() <= u32::MAX);
            let tf = match term_frequencies(text_chunks[k].as_str()) {
                Some(tf) => tf,
                None => return,
            };
            let ghost tfv = counts_view(tf@);
            proof {
                lemma_term_counts(split_terms_spec(texts[k as int]).unwrap());
                assert(tfv == target[k as int]);
                assert(tfv.take(0).len() == 0);
                lemma_docs_concat(ds_del, Seq::empty(), Seq::empty());
            }
            let mut ti: usize = 0;
            while ti < tf.len()
                invariant
                    tfv == counts_view(tf@),
                    distinct_terms(tfv),
                    ti <= tfv.len(),
                    done == chunks_view(doc_chunks@),
                    done.len() == k,
                    k < n,
                    total_chunks(ds_del) + n <= u32::MAX,
                    docs_view(self.documents@) == ds_del,
                    self.chunk_count == total_chunks(ds_del),
                    distinct_terms(counts_view(self.chunk_occurrences@)),
                    forall|i: int| 0 <= i < self.chunk_occurrences@.len() ==> (#[trigger] counts_view(self.chunk_occurrences@)[i]).1 > 0,
                    forall|t: Seq<char>| #[trigger] count_of(counts_view(self.chunk_occurrences@), t)
                        == docs_with(ds_del, t) + chunks_with(done, t)
                            + (if has_term(tfv.take(ti as int), t) { 1nat } else { 0nat }),
                decreases tfv.len() - ti,
            {
                let ghost u = tfv[ti as int].0;
                proof {
                    lemma_has_term_prefix(tfv, ti as int, u);
                    lemma_docs_concat(ds_del, Seq::empty(), u);
                    lemma_chunks_with_concat(done, Seq::empty(), u);
                    assert(count_of(counts_view(self.chunk_occurrences@), u) < u32::MAX);
                }
                increment_occurrence(&mut self.chunk_occurrences, &tf[ti].0);
                proof {
                    assert forall|t: Seq<char>| #[trigger] count_of(counts_view(self.chunk_occurrences@), t)
                        == docs_with(ds_del, t) + chunks_with(done, t)
                            + (if has_term(tfv.take(ti + 1), t) { 1nat } else { 0nat }) by {
                        lemma_has_term_prefix(tfv, ti as int, t);
                    }
                }
                ti = ti + 1;
            }
            doc_chunks.push(tf);
            proof {
                assert(tfv.take(tfv.len() as int) =~= tfv);
                assert(chunks_view(doc_chunks@) =~= done + seq![tfv]);
                assert(target.take(k + 1) =~= target.take(k as int) + seq![tfv]);
                assert forall|t: Seq<char>| #[trigger] count_of(counts_view(self.chunk_occurrences@), t)
                    == docs_with(ds_del, t) + chunks_with(chunks_view(doc_chunks@), t) by {
                    lemma_chunks_with_concat(done, seq![tfv], t);
                    let one = seq![tfv];
                    assert(one.drop_first() =~= Seq::<ChunkView>::empty());
                    assert(one[0] == tfv);
                    assert(chunks_with(one.drop_first(), t) == 0);
                    assert(chunks_with(one, t) == (if has_term(one[0], t) { 1nat } else { 0nat }) + chunks_with(one.drop_first(), t));
                }
            }
            k = k + 1;
        }
        self.chunk_count = self.chunk_count + n as u32;
        let ghost newdoc: DocView = (key@, target);
        self.documents.push((key.to_string(), doc_chunks));
        proof {
            assert(target.take(n as int) =~= target);
            let nd = docs_view(self.documents@);
            assert(nd =~= ds_del + seq![newdoc]);
            let one = seq![newdoc];
            assert(one[0] == newdoc);
            assert(one.drop_first() =~= Seq::<DocView>::empty());
            assert(total_chunks(one.drop_first()) == 0);
            assert(total_chunks(one) == n);
            lemma_docs_concat(ds_del, one, Seq::empty());
            assert forall|t: Seq<char>| #[trigger] count_of(counts_view(self.chunk_occurrences@), t) == docs_with(nd, t) by {
                lemma_docs_concat(ds_del, one, t);
                assert(docs_with(one.drop_first(), t) == 0);
                assert(docs_with(one, t) == chunks_with(one[0].1, t) + docs_with(one.drop_first(), t));
            }
            assert(keys_distinct(nd)) by {
                assert forall|i: int, j: int| 0 <= i < j < nd.len() implies (#[trigger] nd[i]).0 != (#[trigger] nd[j]).0 by {
                    if j == ds_del.len() {
                        assert(nd[i] == ds_del[i]);
                    } else {
                        assert(nd[i] == ds_del[i] && nd[j] == ds_del[j]);
                    }
                }
            }
            assert(chunks_distinct(nd)) by {
                assert forall|i: int, c: int| 0 <= i < nd.len() && 0 <= c < nd[i].1.len() implies distinct_terms(#[trigger] nd[i].1[c]) by {
                    if i == ds_del.len() {
                        assert(nd[i].1[c] == target[c]);
                        lemma_term_counts(split_terms_spec(texts[c]).unwrap());
                    } else {
                        assert(nd[i] == ds_del[i]);
                    }
                }
            }
            assert(nd == ds_del.push(newdoc));
        }
    }
}

/// A query term found in a chunk, with what its TF-IDF score is made of.
#[derive(Debug, Clone, Copy, PartialEq, Eq, Structural)]
pub struct TermMatch {
    /// How often the term occurs in the chunk.
    pub chunk_frequency: u32,
    /// How often the term occurs in the query.
    pub query_frequency: u32,
    /// How many chunks of the index contain the term.
    pub chunk_occurrences: u32,
}

/// The match of query term `q` in `chunk`: its frequency in the chunk, in the
/// query, and the number of chunks of `docs` that contain it.
pub open spec fn term_match(chunk: ChunkView, q: TermCount, docs: Seq<DocView>) -> TermMatch {
    TermMatch {
        chunk_frequency: count_of(chunk, q.0) as u32,
        query_frequency: q.1,
        chunk_occurrences: docs_with(docs, q.0) as u32,
    }
}

/// The query terms that a chunk matches are exactly the query terms that it
/// contains, each once, in query order.
pub proof fn lemma_matches_are_contained_terms(chunk: ChunkView, query: Seq<TermCount>, docs: Seq<DocView>)
    ensures
        chunk_term_matches(chunk, query, docs)
            == query.filter(|q: TermCount| has_term(chunk, q.0)).map_values(|q: TermCount| term_match(chunk, q, docs)),
    decreases query.len(),
{
    let p = |q: TermCount| has_term(chunk, q.0);
    let f = |q: TermCount| term_match(chunk, q, docs);
    if query.len() == 0 {
        reveal(Seq::filter);
        assert(query.filter(p).map_values(f) =~= Seq::<TermMatch>::empty());
    } else {
        let rest = query.drop_first();
        lemma_matches_are_contained_terms(chunk, rest, docs);
        assert(query =~= seq![query[0]] + rest);
        rest.lemma_filter_prepend(query[0], p);
        let here = if p(query[0]) { seq![query[0]] } else { Seq::empty() };
        assert((here + rest.filter(p)).map_values(f) =~= here.map_values(f) + rest.filter(p).map_values(f));
        assert(here.map_values(f) =~= (if has_term(chunk, query[0].0) { seq![f(query[0])] } else { Seq::empty() }));
    }
}

/// Every chunk of the stored documents, in order, with the key of its
/// document.
pub open spec fn keyed_chunks(ds: Seq<DocView>) -> Seq<(Seq<char>, ChunkView)> {
    ds.map_values(|d: DocView| d.1.map_values(|c: ChunkView| (d.0, c))).flatten()
}

/// Scoring lists every chunk of every document once, in order, with the
/// query terms that the chunk contains.
pub proof fn lemma_matches_cover_chunks(ds: Seq<DocView>, query: Seq<TermCount>, docs: Seq<DocView>)
    ensures
        matches_from(ds, query, docs) == keyed_chunks(ds).map_values(
            |kc: (Seq<char>, ChunkView)| (kc.0, chunk_term_matches(kc.1, query, docs))),
    decreases ds.len(),
{
    let g = |kc: (Seq<char>, ChunkView)| (kc.0, chunk_term_matches(kc.1, query, docs));
    let per = |d: DocView| d.1.map_values(|c: ChunkView| (d.0, c));
    if ds.len() == 0 {
        assert(ds.map_values(per) =~= Seq::<Seq<(Seq<char>, ChunkView)>>::empty());
        assert(keyed_chunks(ds).map_values(g) =~= Seq::<ChunkMatchView>::empty());
    } else {
        let rest = ds.drop_first();
        lemma_matches_cover_chunks(rest, query, docs);
        assert(ds.map_values(per).drop_first() =~= rest.map_values(per));
        assert(ds.map_values(per).first() == per(ds[0]));
        assert(keyed_chunks(ds) == per(ds[0]) + keyed_chunks(rest));
        assert((per(ds[0]) + keyed_chunks(rest)).map_values(g) =~= per(ds[0]).map_values(g) + keyed_chunks(rest).map_values(g));
        assert(per(ds[0]).map_values(g) =~= Seq::new(ds[0].1.len(), |c: int| (ds[0].0, chunk_term_matches(ds[0].1[c], query, docs))));
    }
}

/// A chunk of a stored document with the query terms that it contains.
pub struct ChunkMatches {
    /// The key of the document.
    pub key: String,
    /// The query terms in the chunk, in the order of the query's terms.
    pub terms: Vec<TermMatch>,
}

/// The matches of a chunk, seen as its key and the terms found.
pub type ChunkMatchView = (Seq<char>, Seq<TermMatch>);

/// The terms of `query` (from index 0 on) found in `chunk`, with their
/// frequencies and occurrence counts over `docs`.
pub open spec fn chunk_term_matches(chunk: ChunkView, query: Seq<TermCount>, docs: Seq<DocView>) -> Seq<TermMatch>
    decreases query.len(),
{
    if query.len() == 0 {
        Seq::empty()
    } else {
        let t = query[0].0;
        (if has_term(chunk, t) {
            seq![TermMatch {
                chunk_frequency: count_of(chunk, t) as u32,
                query_frequency: query[0].1,
                chunk_occurrences: docs_with(docs, t) as u32,
            }]
        } else {
            Seq::empty()
        }) + chunk_term_matches(chunk, query.drop_first(), docs)
    }
}

/// The matches of the chunks of the documents `ds` (within the index
/// `docs`), document by document and chunk by chunk.
pub open spec fn matches_from(ds: Seq<DocView>, query: Seq<TermCount>, docs: Seq<DocView>) -> Seq<ChunkMatchView>
    decreases ds.len(),
{
    if ds.len() == 0 {
        Seq::empty()
    } else {
        Seq::new(ds[0].1.len(), |c: int| (ds[0].0, chunk_term_matches(ds[0].1[c], query, docs)))
            + matches_from(ds.drop_first(), query, docs)
    }
}

/// The view of a list of chunk matches.
pub open spec fn matches_view(v: Seq<ChunkMatches>) -> Seq<ChunkMatchView> {
    v.map_values(|m: ChunkMatches| (m.key@, m.terms@))
}

/// The query splits into terms, and into no more than `u32::MAX` of them.
pub open spec fn query_ok(query: Seq<char>) -> bool {
    split_terms_spec(query) matches Some(ts) && ts.len() <= u32::MAX
}

/// The total of documents that follow the first ones.
proof fn lemma_matches_concat(a: Seq<DocView>, b: Seq<DocView>, query: Seq<TermCount>, docs: Seq<DocView>)
    ensures
        matches_from(a + b, query, docs) == matches_from(a, query, docs) + matches_from(b, query, docs),
    decreases a.len(),
{
    if a.len() == 0 {
        assert(a + b =~= b);
        assert(matches_from(a, query, docs) + matches_from(b, query, docs) =~= matches_from(b, query, docs));
    } else {
        assert((a + b).drop_first() =~= a.drop_first() + b);
        assert((a + b)[0] == a[0]);
        lemma_matches_concat(a.drop_first(), b, query, docs);
        let h = Seq::new(a[0].1.len(), |c: int| (a[0].0, chunk_term_matches(a[0].1[c], query, docs)));
        assert(h + (matches_from(a.drop_first(), query, docs) + matches_from(b, query, docs))
            =~= (h + matches_from(a.drop_first(), query, docs)) + matches_from(b, query, docs));
    }
}

impl TfIdfEngine {
    /// The number of chunks in the index.
    pub fn chunk_count(&self) -> (r: u32)
        ensures
            r == self.chunk_total(),
    {
        self.chunk_count
    }

    /// For every chunk of every stored document, in order, the terms of
    /// `query` that the chunk contains (in the order of the query's term
    /// frequencies) with their frequency in the chunk, their frequency in
    /// the query and the number of chunks that contain them: what a TF-IDF
    /// score of the chunk is computed from.
    pub fn score_inputs(&self, query: &str) -> (r: Vec<ChunkMatches>)
        requires
            self.well_formed(),
            query_ok(query@),
        ensures
            matches_view(r@) == matches_from(
                self.documents_view(),
                term_counts(split_terms_spec(query@).unwrap()),
                self.documents_view(),
            ),
            r@.len() == keyed_chunks(self.documents_view()).len(),
            forall|j: int| 0 <= j < r@.len() ==> {
                let kc = #[trigger] keyed_chunks(self.documents_view())[j];
                let q = term_counts(split_terms_spec(query@).unwrap());
                &&& r@[j].key@ == kc.0
                &&& r@[j].terms@ == q.filter(|t: TermCount| has_term(kc.1, t.0)).map_values(
                        |t: TermCount| term_match(kc.1, t, self.documents_view()))
            },
    {
        let ghost docs = docs_view(self.documents@);
        let qtf = match term_frequencies(query) {
            Some(q) => q,
            None => return Vec::new(),
        };
        let ghost qv = counts_view(qtf@);
        let mut out: Vec<ChunkMatches> = Vec::new();
        let mut d: usize = 0;
        assert(docs.take(0) =~= Seq::<DocView>::empty());
        while d < self.documents.len()
            invariant
                self.well_formed(),
                docs == docs_view(self.documents@),
                qv == counts_view(qtf@),
                qv == term_counts(split_terms_spec(query@).unwrap()),
                d <= docs.len(),
                matches_view(out@) == matches_from(docs.take(d as int), qv, docs),
            decreases docs.len() - d,
        {
            let doc = &self.documents[d];
            let ghost dv = docs[d as int];
            let ghost base = matches_view(out@);
            let mut c: usize = 0;
            while c < doc.1.len()
                invariant
                    self.well_formed(),
                    docs == docs_view(self.documents@),
                    qv == counts_view(qtf@),
                    dv == docs[d as int],
                    d < docs.len(),
                    *doc == self.documents@[d as int],
                    c <= dv.1.len(),
                    matches_view(out@) == base + Seq::new(c as nat, |i: int| (dv.0, chunk_term_matches(dv.1[i], qv, docs))),
                decreases dv.1.len() - c,
            {
                let chunk = &doc.1[c];
                let ghost cv = dv.1[c as int];
                assert(cv == counts_view(chunk@));
                proof {
                    assert(chunks_distinct(docs));
                    assert(distinct_terms(docs[d as int].1[c as int]));
                }
                let mut terms: Vec<TermMatch> = Vec::new();
                let mut qi: usize = 0;
                assert(qv.skip(0) =~= qv);
                while qi < qtf.len()
                    invariant
                        self.well_formed(),
                        docs == docs_view(self.documents@),
                        qv == counts_view(qtf@),
                        cv == counts_view(chunk@),
                        distinct_terms(cv),
                        qi <= qv.len(),
                        terms@ + chunk_term_matches(cv, qv.skip(qi as int), docs) == chunk_term_matches(cv, qv, docs),
                    decreases qv.len() - qi,
                {
                    let ghost t = qv[qi as int].0;
                    let ghost before = terms@;
                    proof {
                        assert(qv.skip(qi as int)[0] == qv[qi as int]);
                        assert(qv.skip(qi as int).drop_first() =~= qv.skip(qi + 1));
                    }
                    match find_term(chunk, &qtf[qi].0) {
                        Some(j) => {
                            let cf = chunk[j].1;
                            let ghost ov = counts_view(self.chunk_occurrences@);
                            proof {
                                lemma_count_found(cv, t, j as int);
                                assert(has_term(cv, t)) by {
                                    assert(cv[j as int].0 == t);
                                }
                                assert(count_of(ov, t) == docs_with(docs, t));
                            }
                            let occ = match find_term(&self.chunk_occurrences, &qtf[qi].0) {
                                Some(o) => {
                                    proof {
                                        lemma_count_found(ov, t, o as int);
                                    }
                                    self.chunk_occurrences[o].1
                                },
                                None => {
                                    proof {
                                        lemma_count_absent(ov, t);
                                    }
                                    0
                                },
                            };
                            assert(occ == docs_with(docs, t));
                            let m = TermMatch { chunk_frequency: cf, query_frequency: qtf[qi].1, chunk_occurrences: occ };
                            terms.push(m);
                            assert(terms@ + chunk_term_matches(cv, qv.skip(qi + 1), docs)
                                =~= before + chunk_term_matches(cv, qv.skip(qi as int), docs));
                        }
                        None => {
                            assert(chunk_term_matches(cv, qv.skip(qi as int), docs) =~= chunk_term_matches(cv, qv.skip(qi + 1), docs));
                        }
                    }
                    qi = qi + 1;
                }
                assert(qv.skip(qv.len() as int) =~= Seq::<TermCount>::empty());
                assert(terms@ =~= chunk_term_matches(cv, qv, docs));
                let key = doc.0.clone();
                let ghost before = matches_view(out@);
                assert(key@ == dv.0);
                let ghost tv = terms@;
                out.push(ChunkMatches { key, terms });
                assert(matches_view(out@) =~= before.push((dv.0, tv)));
                assert(matches_view(out@) =~= base + Seq::new((c + 1) as nat, |i: int| (dv.0, chunk_term_matches(dv.1[i], qv, docs))));
                c = c + 1;
            }
            proof {
                let one = seq![dv];
                assert(one[0] == dv);
                assert(one.drop_first() =~= Seq::<DocView>::empty());
                assert(matches_from(one.drop_first(), qv, docs) =~= Seq::<ChunkMatchView>::empty());
                assert(matches_from(one, qv, docs) =~= Seq::new(dv.1.len(), |i: int| (dv.0, chunk_term_matches(dv.1[i], qv, docs))));
                lemma_matches_concat(docs.take(d as int), one, qv, docs);
                assert(docs.take(d + 1) =~= docs.take(d as int) + one);
            }
            d = d + 1;
        }
        assert(docs.take(docs.len() as int) =~= docs);
        proof {
            let qv = term_counts(split_terms_spec(query@).unwrap());
            lemma_matches_cover_chunks(docs, qv, docs);
            assert forall|j: int| 0 <= j < out@.len() implies {
                let kc = #[trigger] keyed_chunks(docs)[j];
                &&& out@[j].key@ == kc.0
                &&& out@[j].terms@ == qv.filter(|t: TermCount| has_term(kc.1, t.0)).map_values(
                        |t: TermCount| term_match(kc.1, t, docs))
            } by {
                let kc = keyed_chunks(docs)[j];
                assert(matches_view(out@)[j] == (out@[j].key@, out@[j].terms@));
                lemma_matches_are_contained_terms(kc.1, qv, docs);
            }
        }
        out
    }
}

impl TfIdfEngine {
    /// `update_document`, where it goes through: returns whether it did.
    /// When a chunk text does not split, or the chunk total would leave
    /// `u32`, the index is left as it was.
    pub fn try_update_document(&mut self, key: &str, chunks_json: &str) -> (ok: bool)
        requires
            old(self).well_formed(),
        ensures
            final(self).well_formed(),
            ok == update_ok(old(self).documents_view(), key@, chunks_json@),
            ok ==> final(self).documents_view() == updated_docs(old(self).documents_view(), key@, chunks_json@),
            !ok ==> *final(self) == *old(self),
    {
        let ghost ds = docs_view(self.documents@);
        match parse_string_array(chunks_json) {
            None => {},
            Some(texts) => {
                let ghost tv = views(texts@);
                let mut k: usize = 0;
                while k < texts.len()
                    invariant
                        tv == views(texts@),
                        string_array(chunks_json@) == Some(tv),
                        *self == *old(self),
                        self.well_formed(),
                        ds == docs_view(self.documents@),
                        k <= tv.len(),
                        forall|i: int| 0 <= i < k ==> ((#[trigger] split_terms_spec(tv[i])) matches Some(ts) && ts.len() <= u32::MAX),
                    decreases tv.len() - k,
                {
                    assert(tv[k as int] == texts@[k as int]@);
                    match split_terms(texts[k].as_str()) {
                        None => {
                            return false;
                        },
                        Some(ts) => {
                            if ts.len() > u32::MAX as usize {
                                assert(views(ts@).len() == ts@.len());
                                return false;
                            }
                            assert(views(ts@).len() == ts@.len());
                        },
                    }
                    k = k + 1;
                }
                assert(texts_split(tv));
                let key_s = key.to_string();
                let remaining: u64 = match find_doc(&self.documents, &key_s) {
                    None => {
                        proof {
                            lemma_remove_absent(ds, key@);
                        }
                        self.chunk_count as u64
                    },
                    Some(d) => {
                        proof {
                            lemma_remove_key(ds, key@, d as int);
                            let one = seq![ds[d as int]];
                            assert(one[0] == ds[d as int]);
                            assert(one.drop_first() =~= Seq::<DocView>::empty());
                            assert(total_chunks(one.drop_first()) == 0);
                            assert(total_chunks(one) == one[0].1.len() + total_chunks(one.drop_first()));
                            lemma_docs_concat(ds.take(d as int) + one, ds.skip(d + 1), Seq::empty());
                            lemma_docs_concat(ds.take(d as int), one, Seq::empty());
                            lemma_docs_concat(ds.take(d as int), ds.skip(d + 1), Seq::empty());
                            assert(ds[d as int].1.len() == self.documents@[d as int].1@.len());
                        }
                        (self.chunk_count - self.documents[d].1.len() as u32) as u64
                    },
                };
                assert(remaining == total_chunks(remove_key(ds, key@)));
                if texts.len() as u64 > u32::MAX as u64 - remaining {
                    return false;
                }
            },
        }
        self.update_document(key, chunks_json);
        true
    }

    /// `score_inputs`, where the query splits into terms: `None` otherwise.
    pub fn try_score_inputs(&self, query: &str) -> (r: Option<Vec<ChunkMatches>>)
        requires
            self.well_formed(),
        ensures
            r.is_some() == query_ok(query@),
            r matches Some(v) ==> matches_view(v@) == matches_from(
                self.documents_view(),
                term_counts(split_terms_spec(query@).unwrap()),
                self.documents_view(),
            ),
    {
        match split_terms(query) {
            None => None,
            Some(ts) => {
                assert(views(ts@).len() == ts@.len());
                if ts.len() > u32::MAX as usize {
                    None
                } else {
                    Some(self.score_inputs(query))
                }
            },
        }
    }
}

} // verus!
