//! Myers diffs between two sequences: shortest edit scripts, in separated blocks.
use vstd::prelude::*;
use crate::chars::chars_of;

verus! {

/// A contiguous block of changes between two texts.
///
/// Describes that `original[original_start .. original_start + original_length]`
/// is replaced by `modified[modified_start .. modified_start + modified_length]`.
#[derive(Debug, Clone, Copy, PartialEq, Eq, Structural)]
pub struct DiffChange {
    pub original_start: usize,
    pub original_length: usize,
    pub modified_start: usize,
    pub modified_length: usize,
}

impl DiffChange {
    /// One past the last changed position in the original.
    pub open spec fn original_end(self) -> int {
        self.original_start + self.original_length
    }

    /// One past the last changed position in the modified text.
    pub open spec fn modified_end(self) -> int {
        self.modified_start + self.modified_length
    }

    /// Both ends fit in a `usize`.
    pub open spec fn ends_fit(self) -> bool {
        self.original_end() <= usize::MAX && self.modified_end() <= usize::MAX
    }
}

/// `old[from_o .. to_o]` equals `new[from_m .. to_m]`, element by element.
pub open spec fn equal_run<A>(old: Seq<A>, new: Seq<A>, from_o: int, from_m: int, to_o: int, to_m: int) -> bool {
    &&& 0 <= from_o <= to_o <= old.len()
    &&& 0 <= from_m <= to_m <= new.len()
    &&& to_o - from_o == to_m - from_m
    &&& forall|t: int| 0 <= t < to_o - from_o ==> #[trigger] old[from_o + t] == new[from_m + t]
}

/// Starting from position `(pos_o, pos_m)`, the blocks `cs` (in order), with
/// equal runs between them and after the last one, turn the rest of `old`
/// into the rest of `new`. Every block changes at least one element.
pub open spec fn script_from<A>(old: Seq<A>, new: Seq<A>, cs: Seq<DiffChange>, pos_o: int, pos_m: int) -> bool
    decreases cs.len(),
{
    if cs.len() == 0 {
        equal_run(old, new, pos_o, pos_m, old.len() as int, new.len() as int)
    } else {
        &&& equal_run(old, new, pos_o, pos_m, cs[0].original_start as int, cs[0].modified_start as int)
        &&& cs[0].original_length + cs[0].modified_length > 0
        &&& script_from(old, new, cs.drop_first(), cs[0].original_end(), cs[0].modified_end())
    }
}

/// `cs` is an edit script from `old` to `new`: outside the changed blocks the
/// two sequences agree, in order.
pub open spec fn is_edit_script<A>(old: Seq<A>, new: Seq<A>, cs: Seq<DiffChange>) -> bool {
    script_from(old, new, cs, 0, 0)
}

/// `cs` is an edit script from `old` to `new`, and no edit script deletes and
/// inserts fewer elements in all.
pub open spec fn is_shortest_script<A>(old: Seq<A>, new: Seq<A>, cs: Seq<DiffChange>) -> bool {
    &&& is_edit_script(old, new, cs)
    &&& forall|other: Seq<DiffChange>| #[trigger] is_edit_script(old, new, other)
            ==> script_cost(cs) <= script_cost(other)
}

/// Consecutive blocks are separated by at least one unchanged element, so no
/// two of them could be merged.
pub open spec fn blocks_separated(cs: Seq<DiffChange>) -> bool {
    forall|i: int| 0 <= i < cs.len() - 1 ==>
        (#[trigger] cs[i]).original_end() < cs[i + 1].original_start
            && cs[i].modified_end() < cs[i + 1].modified_start
}

/// How many elements the blocks of `cs` delete and insert, in all.
pub open spec fn script_cost(cs: Seq<DiffChange>) -> int
    decreases cs.len(),
{
    if cs.len() == 0 {
        0
    } else {
        cs[0].original_length + cs[0].modified_length + script_cost(cs.drop_first())
    }
}

/// A script's cost is never negative.
proof fn lemma_script_cost_nonneg(cs: Seq<DiffChange>)
    ensures
        script_cost(cs) >= 0,
    decreases cs.len(),
{
    if cs.len() > 0 {
        lemma_script_cost_nonneg(cs.drop_first());
    }
}

/// The block `next` touches or overlaps `cur` on both sides.
pub open spec fn touches(cur: DiffChange, next: DiffChange) -> bool {
    next.original_start <= cur.original_end() && next.modified_start <= cur.modified_end()
}

/// The block from the start of `cur` to the furthest end of `cur` and `next`.
pub open spec fn combine(cur: DiffChange, next: DiffChange) -> DiffChange {
    let oe = if next.original_end() > cur.original_end() { next.original_end() } else { cur.original_end() };
    let me = if next.modified_end() > cur.modified_end() { next.modified_end() } else { cur.modified_end() };
    DiffChange {
        original_start: cur.original_start,
        original_length: (oe - cur.original_start) as usize,
        modified_start: cur.modified_start,
        modified_length: (me - cur.modified_start) as usize,
    }
}

/// Left-to-right merge of `rest` into the running block `cur`.
pub open spec fn merge_from(cur: DiffChange, rest: Seq<DiffChange>) -> Seq<DiffChange>
    decreases rest.len(),
{
    if rest.len() == 0 {
        seq![cur]
    } else if touches(cur, rest[0]) {
        merge_from(combine(cur, rest[0]), rest.drop_first())
    } else {
        seq![cur] + merge_from(rest[0], rest.drop_first())
    }
}

/// Blocks merged left to right: each block that touches the running block is
/// folded into it.
pub open spec fn merged(cs: Seq<DiffChange>) -> Seq<DiffChange> {
    if cs.len() == 0 {
        Seq::empty()
    } else {
        merge_from(cs[0], cs.drop_first())
    }
}


/// A script can only start inside both sequences.
proof fn lemma_script_bounds<A>(old: Seq<A>, new: Seq<A>, cs: Seq<DiffChange>, pos_o: int, pos_m: int)
    requires
        script_from(old, new, cs, pos_o, pos_m),
    ensures
        0 <= pos_o <= old.len(),
        0 <= pos_m <= new.len(),
    decreases cs.len(),
{
    if cs.len() > 0 {
        lemma_script_bounds(old, new, cs.drop_first(), cs[0].original_end(), cs[0].modified_end());
    }
}

/// The merged run starts where its first block starts.
proof fn lemma_merge_from_first(cur: DiffChange, rest: Seq<DiffChange>)
    ensures
        merge_from(cur, rest).len() >= 1,
        merge_from(cur, rest)[0].original_start == cur.original_start,
        merge_from(cur, rest)[0].modified_start == cur.modified_start,
    decreases rest.len(),
{
    if rest.len() > 0 {
        if touches(cur, rest[0]) {
            lemma_merge_from_first(combine(cur, rest[0]), rest.drop_first());
        } else {
            lemma_merge_from_first(rest[0], rest.drop_first());
        }
    }
}

/// Merging the blocks of an edit script keeps it an edit script and leaves
/// its blocks separated.
proof fn lemma_merge_from_script<A>(old: Seq<A>, new: Seq<A>, cur: DiffChange, rest: Seq<DiffChange>, pos_o: int, pos_m: int)
    requires
        old.len() <= usize::MAX,
        new.len() <= usize::MAX,
        script_from(old, new, seq![cur] + rest, pos_o, pos_m),
    ensures
        script_from(old, new, merge_from(cur, rest), pos_o, pos_m),
        blocks_separated(merge_from(cur, rest)),
        script_cost(merge_from(cur, rest)) == script_cost(seq![cur] + rest),
    decreases rest.len(),
{
    let all = seq![cur] + rest;
    assert(all[0] == cur);
    assert(all.drop_first() =~= rest);
    if rest.len() == 0 {
        assert(merge_from(cur, rest) =~= seq![cur]);
        assert(all =~= seq![cur]);
    } else {
        let r0 = rest[0];
        let tail = rest.drop_first();
        assert(rest =~= seq![r0] + tail);
        assert(script_from(old, new, rest, cur.original_end(), cur.modified_end()));
        assert((seq![r0] + tail)[0] == r0);
        assert((seq![r0] + tail).drop_first() =~= tail);
        if touches(cur, r0) {
            let cb = combine(cur, r0);
            lemma_script_bounds(old, new, tail, r0.original_end(), r0.modified_end());
            assert(cb.original_end() == r0.original_end());
            assert(cb.modified_end() == r0.modified_end());
            let all2 = seq![cb] + tail;
            assert(all2[0] == cb);
            assert(all2.drop_first() =~= tail);
            assert(script_from(old, new, all2, pos_o, pos_m));
            lemma_merge_from_script(old, new, cb, tail, pos_o, pos_m);
            assert(r0.original_start == cur.original_end() && r0.modified_start == cur.modified_end());
            assert(cb.original_length == cur.original_length + r0.original_length);
            assert(cb.modified_length == cur.modified_length + r0.modified_length);
            assert(script_cost(rest) == r0.original_length + r0.modified_length + script_cost(tail));
            assert(script_cost(all2) == script_cost(all));
        } else {
            lemma_merge_from_script(old, new, r0, tail, cur.original_end(), cur.modified_end());
            lemma_merge_from_first(r0, tail);
            let m = merge_from(r0, tail);
            let res = seq![cur] + m;
            assert(merge_from(cur, rest) == res);
            assert(res[0] == cur);
            assert(res.drop_first() =~= m);
            assert(script_cost(res) == script_cost(all));
            assert forall|i: int| 0 <= i < res.len() - 1 implies
                (#[trigger] res[i]).original_end() < res[i + 1].original_start
                    && res[i].modified_end() < res[i + 1].modified_start by {
                if i > 0 {
                    assert(res[i] == m[i - 1]);
                    assert(res[i + 1] == m[i]);
                }
            }
        }
    }
}

/// No block of `cs` touches the block after it.
pub open spec fn blocks_apart(cs: Seq<DiffChange>) -> bool {
    forall|i: int| 0 <= i < cs.len() - 1 ==> !touches(#[trigger] cs[i], cs[i + 1])
}

/// A merged run has no two touching neighbours.
proof fn lemma_merge_from_apart(cur: DiffChange, rest: Seq<DiffChange>)
    ensures
        blocks_apart(merge_from(cur, rest)),
    decreases rest.len(),
{
    if rest.len() > 0 {
        if touches(cur, rest[0]) {
            lemma_merge_from_apart(combine(cur, rest[0]), rest.drop_first());
        } else {
            lemma_merge_from_apart(rest[0], rest.drop_first());
            lemma_merge_from_first(rest[0], rest.drop_first());
            let m = merge_from(rest[0], rest.drop_first());
            let res = seq![cur] + m;
            assert(merge_from(cur, rest) == res);
            assert forall|i: int| 0 <= i < res.len() - 1 implies !touches(#[trigger] res[i], res[i + 1]) by {
                if i == 0 {
                    assert(res[1] == m[0]);
                } else {
                    assert(res[i] == m[i - 1]);
                    assert(res[i + 1] == m[i]);
                }
            }
        }
    }
}

/// Merging blocks of which no two neighbours touch changes nothing.
proof fn lemma_merge_from_apart_fixed(cur: DiffChange, rest: Seq<DiffChange>)
    requires
        blocks_apart(seq![cur] + rest),
    ensures
        merge_from(cur, rest) == seq![cur] + rest,
    decreases rest.len(),
{
    let all = seq![cur] + rest;
    if rest.len() == 0 {
        assert(all =~= seq![cur]);
    } else {
        assert(all[0] == cur && all[1] == rest[0]);
        assert(!touches(all[0], all[1]));
        let tl = rest.drop_first();
        assert(seq![rest[0]] + tl =~= rest);
        assert forall|i: int| 0 <= i < rest.len() - 1 implies !touches(#[trigger] rest[i], rest[i + 1]) by {
            assert(rest[i] == all[i + 1] && rest[i + 1] == all[i + 2]);
        }
        lemma_merge_from_apart_fixed(rest[0], tl);
        assert(seq![cur] + (seq![rest[0]] + tl) =~= all);
    }
}

/// Merging is idempotent: merging an already merged list changes nothing.
pub proof fn lemma_merge_idempotent(cs: Seq<DiffChange>)
    ensures
        merged(merged(cs)) == merged(cs),
{
    if cs.len() > 0 {
        let x = merged(cs);
        lemma_merge_from_apart(cs[0], cs.drop_first());
        lemma_merge_from_first(cs[0], cs.drop_first());
        assert(seq![x[0]] + x.drop_first() =~= x);
        lemma_merge_from_apart_fixed(x[0], x.drop_first());
    }
}

/// Merging any edit script yields an edit script with separated blocks.
pub proof fn lemma_merged_script<A>(old: Seq<A>, new: Seq<A>, cs: Seq<DiffChange>)
    requires
        old.len() <= usize::MAX,
        new.len() <= usize::MAX,
        is_edit_script(old, new, cs),
    ensures
        is_edit_script(old, new, merged(cs)),
        blocks_separated(merged(cs)),
        script_cost(merged(cs)) == script_cost(cs),
{
    if cs.len() > 0 {
        assert(cs =~= seq![cs[0]] + cs.drop_first());
        lemma_merge_from_script(old, new, cs[0], cs.drop_first(), 0, 0);
    }
}


/// An element that a diff can compare with another of its kind.
pub trait DiffItem: View {
    fn same_as(&self, other: &Self) -> (r: bool)
        ensures
            r == (self@ == other@),
    ;
}

impl DiffItem for char {
    fn same_as(&self, other: &char) -> (r: bool) {
        *self == *other
    }
}

impl<'a> DiffItem for &'a str {
    fn same_as(&self, other: &&'a str) -> (r: bool) {
        str_equal(*self, *other)
    }
}

/// `str`'s `==`: true exactly when the two strings hold the same characters.
#[verifier::external_body]
fn str_equal(a: &str, b: &str) -> (r: bool)
    ensures
        r == (a@ == b@),
{
    a == b
}

/// The views of the elements of `s`.
pub open spec fn views<T: View>(s: Seq<T>) -> Seq<T::V> {
    s.map_values(|x: T| x@)
}

/// Largest combined input length the diff accepts: its work arrays hold
/// `2 * (n + m) + 1` entries and positions up to `3 * (n + m)`.
pub open spec fn diff_input_fits(n: int, m: int) -> bool {
    n + m <= usize::MAX / 4
}

/// `idx` is a slot of the diagonal array that round `d` fills: diagonal
/// `k = idx - offset` with `-d <= k <= d` and `k` of the parity of `d`.
spec fn on_round(offset: int, d: int, idx: int) -> bool {
    &&& offset - d <= idx <= offset + d
    &&& (idx - offset + d) % 2 == 0
}

/// Where round `d` starts on the diagonal of slot `idx`, given the
/// furthest-reaching entries `prev` of round `d - 1`: one step down from
/// diagonal `k + 1`, or one step right from diagonal `k - 1`.
spec fn round_start(prev: Seq<usize>, offset: int, d: int, idx: int) -> int {
    if idx == offset - d || (idx != offset + d && prev[idx - 1] < prev[idx + 1]) {
        prev[idx + 1] as int
    } else {
        prev[idx - 1] + 1
    }
}

/// On diagonal `k`, the points from `(s, s - k)` to `(e, e - k)` are joined by
/// matching elements (a snake), all inside both sequences.
spec fn snake<A>(old: Seq<A>, new: Seq<A>, k: int, s: int, e: int) -> bool {
    &&& s <= e
    &&& s - k >= 0
    &&& (s == e || (e <= old.len() && e - k <= new.len()))
    &&& forall|i: int| s <= i < e ==> #[trigger] old[i] == new[i - k]
}

/// The snake on diagonal `k` cannot be extended past `e`: it is at the end of
/// a sequence or the next two elements differ.
spec fn snake_ends<A>(old: Seq<A>, new: Seq<A>, k: int, e: int) -> bool {
    e >= old.len() || e - k >= new.len() || old[e] != new[e - k]
}

/// The entry `cur[idx]` written in round `d` is the end of the longest snake
/// that starts where `round_start` says.
spec fn entry_ok<A>(old: Seq<A>, new: Seq<A>, prev: Seq<usize>, cur: Seq<usize>, offset: int, d: int, idx: int) -> bool {
    &&& 0 <= idx < cur.len()
    &&& snake(old, new, idx - offset, round_start(prev, offset, d, idx), cur[idx] as int)
    &&& snake_ends(old, new, idx - offset, cur[idx] as int)
    &&& cur[idx] <= old.len() + d
}

/// Every slot of round `d` in `cur` is a valid entry over `prev`.
spec fn round_ok<A>(old: Seq<A>, new: Seq<A>, prev: Seq<usize>, cur: Seq<usize>, offset: int, d: int) -> bool {
    forall|idx: int| on_round(offset, d, idx) ==> #[trigger] entry_ok(old, new, prev, cur, offset, d, idx)
}

/// An equal run followed by a script is a script from the run's start.
proof fn lemma_run_then_script<A>(old: Seq<A>, new: Seq<A>, cs: Seq<DiffChange>, ao: int, am: int, bo: int, bm: int)
    requires
        equal_run(old, new, ao, am, bo, bm),
        script_from(old, new, cs, bo, bm),
    ensures
        script_from(old, new, cs, ao, am),
{
    let (to_o, to_m) = if cs.len() == 0 {
        (old.len() as int, new.len() as int)
    } else {
        (cs[0].original_start as int, cs[0].modified_start as int)
    };
    assert(equal_run(old, new, bo, bm, to_o, to_m));
    assert forall|t: int| 0 <= t < to_o - ao implies #[trigger] old[ao + t] == new[am + t] by {
        if t >= bo - ao {
            assert(old[bo + (t - (bo - ao))] == new[bm + (t - (bo - ao))]);
        } else {
            assert(old[ao + t] == new[am + t]);
        }
    }
}

/// Every block of a script ends inside both sequences.
proof fn lemma_script_blocks_fit<A>(old: Seq<A>, new: Seq<A>, cs: Seq<DiffChange>, pos_o: int, pos_m: int)
    requires
        old.len() <= usize::MAX,
        new.len() <= usize::MAX,
        script_from(old, new, cs, pos_o, pos_m),
    ensures
        forall|i: int| 0 <= i < cs.len() ==> (#[trigger] cs[i]).ends_fit(),
    decreases cs.len(),
{
    if cs.len() > 0 {
        lemma_script_blocks_fit(old, new, cs.drop_first(), cs[0].original_end(), cs[0].modified_end());
        lemma_script_bounds(old, new, cs.drop_first(), cs[0].original_end(), cs[0].modified_end());
        assert forall|i: int| 0 <= i < cs.len() implies (#[trigger] cs[i]).ends_fit() by {
            if i > 0 {
                assert(cs[i] == cs.drop_first()[i - 1]);
            }
        }
    }
}


/// The entries of round `cd` of a search that stopped in round `last`: the
/// copy taken at the start of the next round, or the live array for the
/// last round.
spec fn round_end(trace: Seq<Vec<usize>>, live: Seq<usize>, cd: int, last: int) -> Seq<usize> {
    if cd < last {
        trace[cd + 1]@
    } else {
        live
    }
}

/// The point with first coordinate `x` on the diagonal of slot `idx` lies at
/// or past the end of both sequences.
spec fn beyond_end<A>(old: Seq<A>, new: Seq<A>, offset: int, x: int, idx: int) -> bool {
    x >= old.len() && x - (idx - offset) >= new.len()
}

/// No entry of round `d` in `row` lies at or past the end of both sequences.
spec fn round_clear<A>(old: Seq<A>, new: Seq<A>, row: Seq<usize>, offset: int, d: int) -> bool {
    forall|j: int| #![trigger row[j]]
        on_round(offset, d, j) ==> !beyond_end(old, new, offset, row[j] as int, j)
}

/// `rows[0]` is the zeroed start array and `rows[dd + 1]` holds valid entries
/// of round `dd`, for every round before `c`.
spec fn rounds_ok<A>(old: Seq<A>, new: Seq<A>, rows: Seq<Seq<usize>>, offset: int, c: int) -> bool {
    &&& offset == old.len() + new.len()
    &&& offset > 0
    &&& 0 <= c < rows.len()
    &&& rows[0].len() == 2 * offset + 1
    &&& forall|j: int| 0 <= j < rows[0].len() ==> rows[0][j] == 0
    &&& forall|dd: int| 0 <= dd < c ==> #[trigger] round_ok(old, new, rows[dd], rows[dd + 1], offset, dd)
}

/// None of the rounds before `c` reached past the end of both sequences.
spec fn rounds_clear<A>(old: Seq<A>, new: Seq<A>, rows: Seq<Seq<usize>>, offset: int, c: int) -> bool {
    forall|dd: int| 0 <= dd < c ==> #[trigger] round_clear(old, new, rows[dd + 1], offset, dd)
}

/// What one entry of a round owes to the round before: it reaches at least as
/// far as a step down from diagonal `k + 1` and a step right from diagonal
/// `k - 1`, and past the end of a sequence it is exactly where it started.
proof fn lemma_entry_bounds<A>(old: Seq<A>, new: Seq<A>, prev: Seq<usize>, cur: Seq<usize>, offset: int, r: int, idx: int)
    requires
        on_round(offset, r, idx),
        entry_ok(old, new, prev, cur, offset, r, idx),
    ensures
        idx != offset + r ==> cur[idx] >= prev[idx + 1],
        idx != offset - r ==> cur[idx] >= prev[idx - 1] + 1,
        cur[idx] >= round_start(prev, offset, r, idx),
        (cur[idx] > old.len() || cur[idx] - (idx - offset) > new.len())
            ==> cur[idx] == round_start(prev, offset, r, idx),
{
}

/// An entry past the end of `old` on the right had a predecessor, `t` rounds
/// earlier and `t` diagonals lower, that already reached the end of `old`.
proof fn lemma_past_right_end<A>(old: Seq<A>, new: Seq<A>, rows: Seq<Seq<usize>>, offset: int, c: int, e: int, idx: int)
    requires
        rounds_ok(old, new, rows, offset, c),
        0 <= e < c,
        on_round(offset, e, idx),
        rows[e + 1][idx] > old.len(),
    ensures
        ({
            let t = rows[e + 1][idx] - old.len();
            &&& 1 <= t <= e
            &&& on_round(offset, e - t, idx - t)
            &&& rows[e - t + 1][idx - t] >= old.len()
        }),
    decreases e,
{
    assert(round_ok(old, new, rows[e], rows[e + 1], offset, e));
    assert(entry_ok(old, new, rows[e], rows[e + 1], offset, e, idx));
    lemma_entry_bounds(old, new, rows[e], rows[e + 1], offset, e, idx);
    let x = rows[e + 1][idx] as int;
    if e == 0 {
        assert(rows[0][offset + 1] == 0);
    } else if idx == offset - e || (idx != offset + e && rows[e][idx - 1] < rows[e][idx + 1]) {
        lemma_past_right_end(old, new, rows, offset, c, e - 1, idx + 1);
        let t = x - old.len();
        assert(round_ok(old, new, rows[e - t], rows[e - t + 1], offset, e - t));
        assert(entry_ok(old, new, rows[e - t], rows[e - t + 1], offset, e - t, idx - t));
        lemma_entry_bounds(old, new, rows[e - t], rows[e - t + 1], offset, e - t, idx - t);
    } else if x - 1 > old.len() {
        lemma_past_right_end(old, new, rows, offset, c, e - 1, idx - 1);
    }
}

/// An entry past the end of `new` at the bottom had a predecessor, `t`
/// rounds earlier and `t` diagonals higher, that already reached the end of
/// `new`.
proof fn lemma_past_bottom_end<A>(old: Seq<A>, new: Seq<A>, rows: Seq<Seq<usize>>, offset: int, c: int, e: int, idx: int)
    requires
        rounds_ok(old, new, rows, offset, c),
        0 <= e < c,
        on_round(offset, e, idx),
        rows[e + 1][idx] - (idx - offset) > new.len(),
    ensures
        ({
            let t = rows[e + 1][idx] - (idx - offset) - new.len();
            &&& 1 <= t <= e
            &&& on_round(offset, e - t, idx + t)
            &&& rows[e - t + 1][idx + t] - (idx + t - offset) >= new.len()
        }),
    decreases e,
{
    assert(round_ok(old, new, rows[e], rows[e + 1], offset, e));
    assert(entry_ok(old, new, rows[e], rows[e + 1], offset, e, idx));
    lemma_entry_bounds(old, new, rows[e], rows[e + 1], offset, e, idx);
    let y = rows[e + 1][idx] - (idx - offset);
    if e == 0 {
        assert(rows[0][offset + 1] == 0);
    } else if idx == offset - e || (idx != offset + e && rows[e][idx - 1] < rows[e][idx + 1]) {
        if y - 1 > new.len() {
            lemma_past_bottom_end(old, new, rows, offset, c, e - 1, idx + 1);
        }
    } else {
        lemma_past_bottom_end(old, new, rows, offset, c, e - 1, idx - 1);
        let t = y - new.len();
        assert(round_ok(old, new, rows[e - t], rows[e - t + 1], offset, e - t));
        assert(entry_ok(old, new, rows[e - t], rows[e - t + 1], offset, e - t, idx + t));
        lemma_entry_bounds(old, new, rows[e - t], rows[e - t + 1], offset, e - t, idx + t);
    }
}

/// The first entry of the search that reaches past the end of both sequences
/// is exactly the corner `(old.len(), new.len())`.
proof fn lemma_search_stops_at_corner<A>(old: Seq<A>, new: Seq<A>, rows: Seq<Seq<usize>>, cur: Seq<usize>, offset: int, d: int, idx: int)
    requires
        rounds_ok(old, new, rows, offset, d),
        rounds_clear(old, new, rows, offset, d),
        on_round(offset, d, idx),
        entry_ok(old, new, rows[d], cur, offset, d, idx),
        beyond_end(old, new, offset, cur[idx] as int, idx),
    ensures
        cur[idx] == old.len(),
        cur[idx] - (idx - offset) == new.len(),
{
    let n = old.len() as int;
    let m = new.len() as int;
    let x = cur[idx] as int;
    let y = x - (idx - offset);
    lemma_entry_bounds(old, new, rows[d], cur, offset, d, idx);
    if d > 0 {
        let pd = d - 1;
        assert(round_clear(old, new, rows[pd + 1], offset, pd));
    }
    if x > n || y > m {
        if d == 0 {
            assert(rows[0][offset + 1] == 0);
        } else if idx == offset - d || (idx != offset + d && rows[d][idx - 1] < rows[d][idx + 1]) {
            // One step down from slot `idx + 1` of the round before.
            assert(!beyond_end(old, new, offset, rows[d][idx + 1] as int, idx + 1));
            lemma_past_right_end(old, new, rows, offset, d, d - 1, idx + 1);
            let t = x - n;
            let a = rows[d - t][idx + 1 - t] as int;
            assert(round_clear(old, new, rows[d - t], offset, d - t - 1));
            assert(!beyond_end(old, new, offset, a, idx + 1 - t));
            assert(round_ok(old, new, rows[d - t], rows[d - t + 1], offset, d - t));
            assert(entry_ok(old, new, rows[d - t], rows[d - t + 1], offset, d - t, idx - t));
            lemma_entry_bounds(old, new, rows[d - t], rows[d - t + 1], offset, d - t, idx - t);
            assert(round_clear(old, new, rows[d - t + 1], offset, d - t));
            assert(!beyond_end(old, new, offset, rows[d - t + 1][idx - t] as int, idx - t));
        } else {
            // One step right from slot `idx - 1` of the round before.
            assert(!beyond_end(old, new, offset, rows[d][idx - 1] as int, idx - 1));
            lemma_past_bottom_end(old, new, rows, offset, d, d - 1, idx - 1);
            let t = y - m;
            let b = rows[d - t][idx - 1 + t] as int;
            assert(round_clear(old, new, rows[d - t], offset, d - t - 1));
            assert(!beyond_end(old, new, offset, b, idx - 1 + t));
            assert(round_ok(old, new, rows[d - t], rows[d - t + 1], offset, d - t));
            assert(entry_ok(old, new, rows[d - t], rows[d - t + 1], offset, d - t, idx + t));
            lemma_entry_bounds(old, new, rows[d - t], rows[d - t + 1], offset, d - t, idx + t);
            assert(round_clear(old, new, rows[d - t + 1], offset, d - t));
            assert(!beyond_end(old, new, offset, rows[d - t + 1][idx + t] as int, idx + t));
        }
    }
}

/// Round `t` reaches at least `t` along the diagonal of slot `offset + t`.
proof fn lemma_deletion_ray<A>(old: Seq<A>, new: Seq<A>, rows: Seq<Seq<usize>>, offset: int, c: int, t: int)
    requires
        rounds_ok(old, new, rows, offset, c),
        0 <= t < c,
        t <= offset,
    ensures
        rows[t + 1][offset + t] >= t,
    decreases t,
{
    assert(round_ok(old, new, rows[t], rows[t + 1], offset, t));
    assert(on_round(offset, t, offset + t));
    assert(entry_ok(old, new, rows[t], rows[t + 1], offset, t, offset + t));
    lemma_entry_bounds(old, new, rows[t], rows[t + 1], offset, t, offset + t);
    if t == 0 {
        assert(rows[0][offset + 1] == 0);
    } else {
        lemma_deletion_ray(old, new, rows, offset, c, t - 1);
    }
}

/// Round `old.len() + s` reaches at least `(old.len(), s)` along the diagonal
/// of slot `offset + old.len() - s`.
proof fn lemma_insertion_ray<A>(old: Seq<A>, new: Seq<A>, rows: Seq<Seq<usize>>, offset: int, c: int, s: int)
    requires
        rounds_ok(old, new, rows, offset, c),
        0 <= s <= new.len(),
        old.len() + s < c,
    ensures
        rows[old.len() + s + 1][offset + old.len() - s] >= old.len(),
        rows[old.len() + s + 1][offset + old.len() - s] - (old.len() - s) >= s,
    decreases s,
{
    let n = old.len() as int;
    if s == 0 {
        lemma_deletion_ray(old, new, rows, offset, c, n);
    } else {
        lemma_insertion_ray(old, new, rows, offset, c, s - 1);
        let r = n + s;
        let idx = offset + n - s;
        assert(round_ok(old, new, rows[r], rows[r + 1], offset, r));
        assert(on_round(offset, r, idx));
        assert(entry_ok(old, new, rows[r], rows[r + 1], offset, r, idx));
        lemma_entry_bounds(old, new, rows[r], rows[r + 1], offset, r, idx);
    }
}

/// A search that ran all `offset + 1` rounds reached past the end of both
/// sequences in one of them.
proof fn lemma_search_reaches_end<A>(old: Seq<A>, new: Seq<A>, rows: Seq<Seq<usize>>, offset: int)
    requires
        rounds_ok(old, new, rows, offset, offset + 1),
    ensures
        !rounds_clear(old, new, rows, offset, offset + 1),
{
    let n = old.len() as int;
    let m = new.len() as int;
    lemma_insertion_ray(old, new, rows, offset, offset + 1, m);
    let idx = offset + n - m;
    assert(on_round(offset, offset, idx));
    if rounds_clear(old, new, rows, offset, offset + 1) {
        assert(round_clear(old, new, rows[offset + 1], offset, offset));
        assert(!beyond_end(old, new, offset, rows[offset + 1][idx] as int, idx));
    }
}

/// `(x, y)` can be reached from `(0, 0)` in the edit graph of `old` and `new`
/// with exactly `e` single-element deletions and insertions, stepping
/// diagonally over equal elements everywhere else.
spec fn reachable<A>(old: Seq<A>, new: Seq<A>, x: int, y: int, e: int) -> bool
    decreases x + y,
{
    if x < 0 || y < 0 || x > old.len() || y > new.len() || e < 0 {
        false
    } else if x == 0 && y == 0 {
        e == 0
    } else {
        ||| (x > 0 && y > 0 && old[x - 1] == new[y - 1] && reachable(old, new, x - 1, y - 1, e))
        ||| (x > 0 && reachable(old, new, x - 1, y, e - 1))
        ||| (y > 0 && reachable(old, new, x, y - 1, e - 1))
    }
}

/// A point reachable with `e` edits is no further along its diagonal than
/// what round `e` of the search found there.
proof fn lemma_reachable_bound<A>(old: Seq<A>, new: Seq<A>, rows: Seq<Seq<usize>>, offset: int, c: int, x: int, y: int, e: int)
    requires
        rounds_ok(old, new, rows, offset, c),
        reachable(old, new, x, y, e),
        e < c,
    ensures
        on_round(offset, e, offset + x - y),
        rows[e + 1][offset + x - y] >= x,
    decreases x + y,
{
    let idx = offset + x - y;
    if x == 0 && y == 0 {
    } else if x > 0 && y > 0 && old[x - 1] == new[y - 1] && reachable(old, new, x - 1, y - 1, e) {
        lemma_reachable_bound(old, new, rows, offset, c, x - 1, y - 1, e);
        assert(round_ok(old, new, rows[e], rows[e + 1], offset, e));
        assert(entry_ok(old, new, rows[e], rows[e + 1], offset, e, idx));
    } else if x > 0 && reachable(old, new, x - 1, y, e - 1) {
        lemma_reachable_bound(old, new, rows, offset, c, x - 1, y, e - 1);
        assert(round_ok(old, new, rows[e], rows[e + 1], offset, e));
        assert(entry_ok(old, new, rows[e], rows[e + 1], offset, e, idx));
        lemma_entry_bounds(old, new, rows[e], rows[e + 1], offset, e, idx);
    } else {
        lemma_reachable_bound(old, new, rows, offset, c, x, y - 1, e - 1);
        assert(round_ok(old, new, rows[e], rows[e + 1], offset, e));
        assert(entry_ok(old, new, rows[e], rows[e + 1], offset, e, idx));
        lemma_entry_bounds(old, new, rows[e], rows[e + 1], offset, e, idx);
    }
}

/// Walking an equal run keeps the number of edits.
proof fn lemma_run_reachable<A>(old: Seq<A>, new: Seq<A>, ao: int, am: int, bo: int, bm: int, e: int)
    requires
        equal_run(old, new, ao, am, bo, bm),
        reachable(old, new, ao, am, e),
    ensures
        reachable(old, new, bo, bm, e),
    decreases bo - ao,
{
    if bo > ao {
        assert(old[ao + (bo - 1 - ao)] == new[am + (bo - 1 - ao)]);
        lemma_run_reachable(old, new, ao, am, bo - 1, bm - 1, e);
    }
}

/// Deleting `dx` elements and then inserting `dy` costs `dx + dy` edits.
proof fn lemma_block_reachable<A>(old: Seq<A>, new: Seq<A>, x: int, y: int, e: int, dx: int, dy: int)
    requires
        reachable(old, new, x, y, e),
        0 <= dx,
        0 <= dy,
        x + dx <= old.len(),
        y + dy <= new.len(),
    ensures
        reachable(old, new, x + dx, y + dy, e + dx + dy),
    decreases dx + dy,
{
    if dy > 0 {
        lemma_block_reachable(old, new, x, y, e, dx, dy - 1);
    } else if dx > 0 {
        lemma_block_reachable(old, new, x, y, e, dx - 1, 0);
    }
}

/// Following a script from a point reachable with `e` edits reaches the end
/// of both sequences with `e` more than the script's cost.
proof fn lemma_script_reachable<A>(old: Seq<A>, new: Seq<A>, cs: Seq<DiffChange>, pos_o: int, pos_m: int, e: int)
    requires
        script_from(old, new, cs, pos_o, pos_m),
        reachable(old, new, pos_o, pos_m, e),
    ensures
        reachable(old, new, old.len() as int, new.len() as int, e + script_cost(cs)),
    decreases cs.len(),
{
    if cs.len() == 0 {
        lemma_run_reachable(old, new, pos_o, pos_m, old.len() as int, new.len() as int, e);
    } else {
        let c = cs[0];
        lemma_run_reachable(old, new, pos_o, pos_m, c.original_start as int, c.modified_start as int, e);
        lemma_script_bounds(old, new, cs.drop_first(), c.original_end(), c.modified_end());
        lemma_block_reachable(old, new, c.original_start as int, c.modified_start as int, e,
            c.original_length as int, c.modified_length as int);
        lemma_script_reachable(old, new, cs.drop_first(), c.original_end(), c.modified_end(),
            e + c.original_length + c.modified_length);
    }
}

/// No edit script is cheaper than the round in which the search reached the
/// end of both sequences.
proof fn lemma_search_minimal<A>(old: Seq<A>, new: Seq<A>, rows: Seq<Seq<usize>>, offset: int, d: int, cs: Seq<DiffChange>)
    requires
        rounds_ok(old, new, rows, offset, d),
        rounds_clear(old, new, rows, offset, d),
        is_edit_script(old, new, cs),
    ensures
        script_cost(cs) >= d,
{
    let n = old.len() as int;
    let m = new.len() as int;
    assert(reachable(old, new, 0, 0, 0));
    lemma_script_reachable(old, new, cs, 0, 0, 0);
    let e = script_cost(cs);
    if e < d {
        lemma_reachable_bound(old, new, rows, offset, d, n, m, e);
        assert(round_clear(old, new, rows[e + 1], offset, e));
        assert(!beyond_end(old, new, offset, rows[e + 1][offset + n - m] as int, offset + n - m));
    }
}

/// The end of the longest run of equal elements on diagonal `k` (where
/// `new[x - k]` faces `old[x]`) that starts at `x`.
pub open spec fn snake_end<A>(old: Seq<A>, new: Seq<A>, k: int, x: int) -> int
    decreases old.len() - x,
{
    if 0 <= x < old.len() && 0 <= x - k < new.len() && old[x] == new[x - k] {
        snake_end(old, new, k, x + 1)
    } else {
        x
    }
}

/// Which diagonal the path to diagonal `k` in round `d` comes from: the one
/// above (`k + 1`, a step down) at the lower edge or when it reached
/// strictly further than the one below, else the one below (`k - 1`, a step
/// right).
pub open spec fn back_step<A>(old: Seq<A>, new: Seq<A>, d: int, k: int) -> int
    decreases d, 0int,
{
    if d <= 0 {
        k
    } else if k == -d || (k != d && furthest(old, new, d - 1, k - 1) < furthest(old, new, d - 1, k + 1)) {
        k + 1
    } else {
        k - 1
    }
}

/// How far along diagonal `k` the Myers search reaches with `d` edits: from
/// where `back_step` leads, one step down or right, then along the longest
/// run of equal elements.
pub open spec fn furthest<A>(old: Seq<A>, new: Seq<A>, d: int, k: int) -> int
    decreases d, 1int,
{
    if d <= 0 {
        snake_end(old, new, k, 0)
    } else {
        let pk = back_step(old, new, d, k);
        let start = if pk == k + 1 {
            furthest(old, new, d - 1, k + 1)
        } else {
            furthest(old, new, d - 1, k - 1) + 1
        };
        snake_end(old, new, k, start)
    }
}

/// In round `d` some diagonal reaches the end of both sequences.
pub open spec fn reaches_end<A>(old: Seq<A>, new: Seq<A>, d: int) -> bool {
    exists|k: int| -d <= k <= d && (k + d) % 2 == 0
        && #[trigger] furthest(old, new, d, k) >= old.len()
        && furthest(old, new, d, k) - k >= new.len()
}

/// The first round from `d` on that reaches the end of both sequences.
pub open spec fn stop_round_from<A>(old: Seq<A>, new: Seq<A>, d: int) -> int
    decreases old.len() + new.len() - d,
{
    if d >= old.len() + new.len() || reaches_end(old, new, d) {
        d
    } else {
        stop_round_from(old, new, d + 1)
    }
}

/// The number of edits of the Myers search: the first round that reaches
/// the end of both sequences.
pub open spec fn edit_rounds<A>(old: Seq<A>, new: Seq<A>) -> int {
    stop_round_from(old, new, 0)
}

/// The one-element block of the step into diagonal `k` in round `d`: an
/// insertion after a step down, a deletion after a step right.
pub open spec fn back_block<A>(old: Seq<A>, new: Seq<A>, d: int, k: int) -> DiffChange {
    let pk = back_step(old, new, d, k);
    let px = furthest(old, new, d - 1, pk);
    let py = px - pk;
    if pk == k + 1 {
        DiffChange { original_start: px as usize, original_length: 0, modified_start: py as usize, modified_length: 1 }
    } else {
        DiffChange { original_start: px as usize, original_length: 1, modified_start: py as usize, modified_length: 0 }
    }
}

/// The one-element blocks, in order, of the path that ends on diagonal `k`
/// after round `d`.
pub open spec fn walk_back<A>(old: Seq<A>, new: Seq<A>, d: int, k: int) -> Seq<DiffChange>
    decreases d,
{
    if d <= 0 {
        Seq::empty()
    } else {
        walk_back(old, new, d - 1, back_step(old, new, d, k)) + seq![back_block(old, new, d, k)]
    }
}

/// The one-element blocks of the Myers path from `(0, 0)` to the end of both
/// sequences, before adjacent blocks are merged.
pub open spec fn myers_script<A>(old: Seq<A>, new: Seq<A>) -> Seq<DiffChange> {
    walk_back(old, new, edit_rounds(old, new), old.len() - new.len())
}

/// A maximal snake ends where `snake_end` says.
proof fn lemma_snake_end<A>(old: Seq<A>, new: Seq<A>, k: int, s: int, e: int)
    requires
        0 <= s,
        snake(old, new, k, s, e),
        snake_ends(old, new, k, e),
    ensures
        e == snake_end(old, new, k, s),
    decreases e - s,
{
    if s < e {
        assert(old[s] == new[s - k]);
        lemma_snake_end(old, new, k, s + 1, e);
    }
}

/// Every entry of the search is `furthest` of its round and diagonal.
proof fn lemma_entry_is_furthest<A>(old: Seq<A>, new: Seq<A>, rows: Seq<Seq<usize>>, offset: int, d: int, cur: Seq<usize>, idx: int)
    requires
        rounds_ok(old, new, rows, offset, d),
        on_round(offset, d, idx),
        entry_ok(old, new, rows[d], cur, offset, d, idx),
    ensures
        cur[idx] == furthest(old, new, d, idx - offset),
    decreases d,
{
    let k = idx - offset;
    if d > 0 {
        let pd = d - 1;
        assert(round_ok(old, new, rows[pd], rows[pd + 1], offset, pd));
        if idx != offset - d {
            assert(on_round(offset, pd, idx - 1));
            assert(entry_ok(old, new, rows[pd], rows[pd + 1], offset, pd, idx - 1));
            lemma_entry_is_furthest(old, new, rows, offset, pd, rows[pd + 1], idx - 1);
        }
        if idx != offset + d {
            assert(on_round(offset, pd, idx + 1));
            assert(entry_ok(old, new, rows[pd], rows[pd + 1], offset, pd, idx + 1));
            lemma_entry_is_furthest(old, new, rows, offset, pd, rows[pd + 1], idx + 1);
        }
        assert(rows[pd + 1] == rows[d]);
        let pk = back_step(old, new, d, k);
        assert(round_start(rows[d], offset, d, idx) == (if pk == k + 1 {
            furthest(old, new, pd, k + 1)
        } else {
            furthest(old, new, pd, k - 1) + 1
        }));
    } else {
        assert(rows[0][offset + 1] == 0);
    }
    lemma_snake_end(old, new, k, round_start(rows[d], offset, d, idx), cur[idx] as int);
}

/// `stop_round_from` finds the first round that reaches the end.
proof fn lemma_stop_from<A>(old: Seq<A>, new: Seq<A>, j: int, d: int)
    requires
        0 <= j <= d <= old.len() + new.len(),
        reaches_end(old, new, d),
        forall|i: int| j <= i < d ==> !reaches_end(old, new, i),
    ensures
        stop_round_from(old, new, j) == d,
    decreases d - j,
{
    if j < d {
        lemma_stop_from(old, new, j + 1, d);
    }
}

/// The search's stopping round is `edit_rounds`.
proof fn lemma_edit_rounds<A>(old: Seq<A>, new: Seq<A>, rows: Seq<Seq<usize>>, offset: int, d: int, cur: Seq<usize>, idx: int)
    requires
        rounds_ok(old, new, rows, offset, d),
        rounds_clear(old, new, rows, offset, d),
        on_round(offset, d, idx),
        entry_ok(old, new, rows[d], cur, offset, d, idx),
        beyond_end(old, new, offset, cur[idx] as int, idx),
        d <= offset,
    ensures
        edit_rounds(old, new) == d,
{
    lemma_entry_is_furthest(old, new, rows, offset, d, cur, idx);
    let k = idx - offset;
    assert(furthest(old, new, d, k) >= old.len() && furthest(old, new, d, k) - k >= new.len());
    assert(reaches_end(old, new, d));
    assert forall|i: int| 0 <= i < d implies !reaches_end(old, new, i) by {
        if reaches_end(old, new, i) {
            let kk = choose|kk: int| -i <= kk <= i && (kk + i) % 2 == 0
                && #[trigger] furthest(old, new, i, kk) >= old.len()
                && furthest(old, new, i, kk) - kk >= new.len();
            assert(on_round(offset, i, offset + kk));
            assert(round_ok(old, new, rows[i], rows[i + 1], offset, i));
            assert(entry_ok(old, new, rows[i], rows[i + 1], offset, i, offset + kk));
            lemma_entry_is_furthest(old, new, rows, offset, i, rows[i + 1], offset + kk);
            assert(round_clear(old, new, rows[i + 1], offset, i));
            assert(!beyond_end(old, new, offset, rows[i + 1][offset + kk] as int, offset + kk));
        }
    }
    lemma_stop_from(old, new, 0, d);
}

/// Core Myers diff on slices of comparable items.
///
/// Returns the changed blocks only, in order; equal runs between them are
/// left implicit.
#[verifier::rlimit(40)]
pub fn myers_diff<T: DiffItem>(old: &[T], new: &[T]) -> (res: Vec<DiffChange>)
    requires
        diff_input_fits(old@.len() as int, new@.len() as int),
    ensures
        res@ == merged(myers_script(views(old@), views(new@))),
        is_shortest_script(views(old@), views(new@), res@),
        blocks_separated(res@),
        views(old@) == views(new@) ==> res@.len() == 0,
{
    let n = old.len();
    let m = new.len();
    let ghost ov = views(old@);
    let ghost nv = views(new@);
    let max = n + m;
    if max == 0 {
        assert(equal_run(ov, nv, 0, 0, 0, 0));
        assert(edit_rounds(ov, nv) == 0);
        assert(myers_script(ov, nv) =~= Seq::<DiffChange>::empty());
        assert forall|cs: Seq<DiffChange>| is_edit_script(ov, nv, cs) implies script_cost(cs) >= 0 by {
            lemma_script_cost_nonneg(cs);
        }
        return Vec::new();
    }
    let offset = max;
    let v_size = 2 * max + 1;
    let mut v: Vec<usize> = Vec::new();
    while v.len() < v_size
        invariant
            v@.len() <= v_size,
            forall|j: int| 0 <= j < v@.len() ==> v@[j] == 0,
        decreases v_size - v@.len(),
    {
        v.push(0);
    }
    let mut trace: Vec<Vec<usize>> = Vec::new();
    let mut found = false;
    let mut d: usize = 0;
    let mut end_x: usize = 0;
    let mut end_y: usize = 0;
    let mut end_idx: usize = 0;
    while !found && d <= max
        invariant
            n == old@.len(),
            m == new@.len(),
            ov == views(old@),
            nv == views(new@),
            max == n + m,
            max > 0,
            offset == max,
            v_size == 2 * max + 1,
            diff_input_fits(n as int, m as int),
            v@.len() == v_size,
            d <= max + 1,
            !found ==> trace@.len() == d,
            found ==> trace@.len() == d + 1 && d <= max,
            trace@.len() > 0 ==> forall|j: int| 0 <= j < v_size ==> trace@[0]@[j] == 0,
            trace@.len() == 0 ==> forall|j: int| 0 <= j < v_size ==> v@[j] == 0,
            forall|dd: int| 0 <= dd < trace@.len() ==> (#[trigger] trace@[dd])@.len() == v_size,
            forall|dd: int| 0 <= dd < trace@.len() - 1 ==>
                round_ok(ov, nv, (#[trigger] trace@[dd])@, trace@[dd + 1]@, offset as int, dd),
            !found && d > 0 ==> round_ok(ov, nv, trace@[d - 1]@, v@, offset as int, d - 1),
            forall|dd: int| 0 <= dd < trace@.len() - 1 ==>
                #[trigger] round_clear(ov, nv, trace@[dd + 1]@, offset as int, dd),
            !found && d > 0 ==> round_clear(ov, nv, v@, offset as int, d - 1),
            found ==> on_round(offset as int, d as int, end_idx as int)
                && entry_ok(ov, nv, trace@[d as int]@, v@, offset as int, d as int, end_idx as int)
                && end_x == v@[end_idx as int]
                && end_y == end_x + offset - end_idx
                && end_x >= n && end_y >= m,
            ov == nv ==> found || d == 0,
            ov == nv && found ==> d == 0 && end_x == n && end_y == m,
        decreases max + 1 - d + (if found { 0int } else { 1int }),
    {
        let ghost vstart = v@;
        let ghost old_trace = trace@;
        let row = v.clone();
        assert(row@ =~= vstart);
        trace.push(row);
        assert(trace@[d as int]@ == vstart);
        proof {
            assert forall|dd: int| 0 <= dd < trace@.len() - 1 implies
                #[trigger] round_clear(ov, nv, trace@[dd + 1]@, offset as int, dd) by {
                if dd < d - 1 {
                    assert(trace@[dd + 1] == old_trace[dd + 1]);
                    assert(round_clear(ov, nv, old_trace[dd + 1]@, offset as int, dd));
                }
            }
        }
        let mut idx: usize = offset - d;
        while !found && idx <= offset + d
            invariant
                n == old@.len(),
                m == new@.len(),
                ov == views(old@),
                nv == views(new@),
                max == n + m,
                offset == max,
                v_size == 2 * max + 1,
                diff_input_fits(n as int, m as int),
                v@.len() == v_size,
                d <= max,
                max > 0,
                trace@.len() == d + 1,
                trace@[d as int]@ == vstart,
                vstart.len() == v_size,
                d == 0 ==> forall|j: int| 0 <= j < v_size ==> vstart[j] == 0,
                forall|j: int| 0 <= j < v_size ==> trace@[0]@[j] == 0,
                forall|dd: int| 0 <= dd < trace@.len() ==> (#[trigger] trace@[dd])@.len() == v_size,
                forall|dd: int| 0 <= dd < trace@.len() - 1 ==>
                    round_ok(ov, nv, (#[trigger] trace@[dd])@, trace@[dd + 1]@, offset as int, dd),
                offset - d <= idx <= offset + d + 2,
                (idx - offset + d) % 2 == 0,
                forall|j: int| 0 <= j < v_size && (j - offset + d) % 2 != 0 ==> v@[j] == vstart[j],
                !found ==> forall|j: int| on_round(offset as int, d as int, j) && j < idx ==>
                    #[trigger] entry_ok(ov, nv, vstart, v@, offset as int, d as int, j),
                forall|dd: int| 0 <= dd < trace@.len() - 1 ==>
                    #[trigger] round_clear(ov, nv, trace@[dd + 1]@, offset as int, dd),
                !found ==> forall|j: int| #![trigger v@[j]] on_round(offset as int, d as int, j) && j < idx ==>
                    !beyond_end(ov, nv, offset as int, v@[j] as int, j),
                found ==> on_round(offset as int, d as int, end_idx as int)
                    && entry_ok(ov, nv, vstart, v@, offset as int, d as int, end_idx as int)
                    && end_x == v@[end_idx as int]
                    && end_y == end_x + offset - end_idx
                    && end_x >= n && end_y >= m,
                ov == nv && d == 0 && !found ==> idx == offset,
                ov == nv ==> d == 0,
                ov == nv && found ==> d == 0 && end_x == n && end_y == m,
            decreases offset + d + 2 - idx + (if found { 0int } else { 1int }),
        {
            let ghost k: int = idx - offset;
            proof {
                if d > 0 {
                    assert(round_ok(ov, nv, trace@[d - 1]@, vstart, offset as int, d - 1));
                    if idx != offset - d {
                        assert(on_round(offset as int, d - 1, idx - 1));
                        assert(entry_ok(ov, nv, trace@[d - 1]@, vstart, offset as int, d - 1, idx - 1));
                        assert(v@[idx - 1] == vstart[idx - 1]);
                    }
                    if idx != offset + d {
                        assert(on_round(offset as int, d - 1, idx + 1));
                        assert(entry_ok(ov, nv, trace@[d - 1]@, vstart, offset as int, d - 1, idx + 1));
                        assert(v@[idx + 1] == vstart[idx + 1]);
                    }
                } else {
                    assert(v@[idx + 1] == vstart[idx + 1]);
                }
            }
            let x0 = if idx == offset - d || (idx != offset + d && v[idx - 1] < v[idx + 1]) {
                v[idx + 1]
            } else {
                v[idx - 1] + 1
            };
            assert(x0 == round_start(vstart, offset as int, d as int, idx as int));
            assert(x0 - k >= 0);
            assert(x0 <= n + d);
            let mut x = x0;
            let mut y = x0 + offset - idx;
            while x < n && y < m && old[x].same_as(&new[y])
                invariant
                    n == old@.len(),
                    m == new@.len(),
                    ov == views(old@),
                    nv == views(new@),
                    max == n + m,
                    offset == max,
                    diff_input_fits(n as int, m as int),
                    x0 <= x,
                    x0 <= n + d,
                    d <= max,
                    x0 - k >= 0,
                    k == idx - offset,
                    y == x - k,
                    x == x0 || (x <= n && y <= m),
                    forall|i: int| x0 <= i < x ==> #[trigger] ov[i] == nv[i - k],
                    ov == nv && k == 0 && x0 == 0 ==> x == y,
                decreases n - x,
            {
                assert(ov[x as int] == nv[x - k]);
                x = x + 1;
                y = y + 1;
            }
            proof {
                if ov == nv && d == 0 {
                    assert(ov.len() == nv.len());
                    assert(n == m);
                    assert(k == 0);
                    assert(x == y);
                    if x < n {
                        assert(ov[x as int] == old@[x as int]@);
                        assert(nv[y as int] == new@[y as int]@);
                        assert(ov[x as int] == nv[y as int]);
                        assert(false);
                    }
                }
                if x < n && y < m {
                    assert(ov[x as int] == old@[x as int]@);
                    assert(nv[y as int] == new@[y as int]@);
                }
                assert(snake_ends(ov, nv, k, x as int));
            }
            let ghost before_set = v@;
            assert(!found);
            v.set(idx, x);
            assert(entry_ok(ov, nv, vstart, v@, offset as int, d as int, idx as int));
            if x >= n && y >= m {
                found = true;
                end_x = x;
                end_y = y;
                end_idx = idx;
            } else {
                assert forall|j: int| on_round(offset as int, d as int, j) && j < idx + 2 implies
                    #[trigger] entry_ok(ov, nv, vstart, v@, offset as int, d as int, j) by {
                    if j != idx {
                        assert(j < idx);
                        assert(entry_ok(ov, nv, vstart, before_set, offset as int, d as int, j));
                        assert(v@[j] == before_set[j]);
                    }
                }
                assert forall|j: int| #![trigger v@[j]] on_round(offset as int, d as int, j) && j < idx + 2 implies
                    !beyond_end(ov, nv, offset as int, v@[j] as int, j) by {
                    if j != idx {
                        assert(v@[j] == before_set[j]);
                    }
                }
                idx = idx + 2;
            }
        }
        if !found {
            assert forall|j: int| on_round(offset as int, d as int, j) implies
                #[trigger] entry_ok(ov, nv, vstart, v@, offset as int, d as int, j) by {}
            assert(round_ok(ov, nv, vstart, v@, offset as int, d as int));
            assert(round_clear(ov, nv, v@, offset as int, d as int));
            d = d + 1;
        }
    }
    proof {
        let rows = trace@.map_values(|r: Vec<usize>| r@);
        let c = trace@.len() - 1;
        assert(ov.len() == n && nv.len() == m);
        assert forall|dd: int| 0 <= dd < c implies
            #[trigger] round_ok(ov, nv, rows[dd], rows[dd + 1], offset as int, dd) by {
            assert(round_ok(ov, nv, trace@[dd]@, trace@[dd + 1]@, offset as int, dd));
        }
        assert forall|dd: int| 0 <= dd < c implies
            #[trigger] round_clear(ov, nv, rows[dd + 1], offset as int, dd) by {
            assert(round_clear(ov, nv, trace@[dd + 1]@, offset as int, dd));
        }
        if found {
            assert(rounds_ok(ov, nv, rows, offset as int, d as int));
            lemma_search_stops_at_corner(ov, nv, rows, v@, offset as int, d as int, end_idx as int);
            lemma_edit_rounds(ov, nv, rows, offset as int, d as int, v@, end_idx as int);
            assert forall|dd: int, j: int| 0 <= dd < d && on_round(offset as int, dd, j) implies
                #[trigger] trace@[dd + 1]@[j] == furthest(ov, nv, dd, j - offset) by {
                assert(round_ok(ov, nv, rows[dd], rows[dd + 1], offset as int, dd));
                assert(entry_ok(ov, nv, rows[dd], rows[dd + 1], offset as int, dd, j));
                lemma_entry_is_furthest(ov, nv, rows, offset as int, dd, rows[dd + 1], j);
            }
            assert forall|cs: Seq<DiffChange>| is_edit_script(ov, nv, cs) implies script_cost(cs) >= d by {
                lemma_search_minimal(ov, nv, rows, offset as int, d as int, cs);
            }
        } else {
            // All rounds ran without reaching the end: impossible.
            let full = rows.push(v@);
            assert forall|dd: int| 0 <= dd < d implies
                #[trigger] round_ok(ov, nv, full[dd], full[dd + 1], offset as int, dd) by {
                if dd < d - 1 {
                    assert(round_ok(ov, nv, rows[dd], rows[dd + 1], offset as int, dd));
                } else {
                    assert(full[dd + 1] == v@);
                    assert(full[dd] == trace@[d - 1]@);
                }
            }
            assert(rounds_ok(ov, nv, full, offset as int, offset + 1));
            lemma_search_reaches_end(ov, nv, full, offset as int);
            assert forall|dd: int| 0 <= dd < d implies
                #[trigger] round_clear(ov, nv, full[dd + 1], offset as int, dd) by {
                if dd < d - 1 {
                    assert(round_clear(ov, nv, rows[dd + 1], offset as int, dd));
                } else {
                    assert(full[dd + 1] == v@);
                }
            }
            assert(false);
        }
    }

    // Walk back from the corner through the rounds, one edit per round.
    let ghost last = d as int;
    let mut changes: Vec<DiffChange> = Vec::new();
    let ghost mut fwd: Seq<DiffChange> = Seq::empty();
    let mut x = n;
    let mut y = m;
    let mut cd: usize = d;
    let mut cidx: usize = end_idx;
    assert(equal_run(ov, nv, n as int, m as int, ov.len() as int, nv.len() as int));
    assert(walk_back(ov, nv, cd as int, cidx - offset) + fwd =~= walk_back(ov, nv, last, n - m));
    while cd > 0
        invariant
            n == old@.len(),
            m == new@.len(),
            ov == views(old@),
            nv == views(new@),
            max == n + m,
            offset == max,
            v_size == 2 * max + 1,
            diff_input_fits(n as int, m as int),
            v@.len() == v_size,
            trace@.len() == last + 1,
            0 <= cd <= last,
            last <= max,
            forall|j: int| 0 <= j < v_size ==> trace@[0]@[j] == 0,
            forall|dd: int| 0 <= dd < trace@.len() ==> (#[trigger] trace@[dd])@.len() == v_size,
            forall|dd: int| 0 <= dd < trace@.len() - 1 ==>
                round_ok(ov, nv, (#[trigger] trace@[dd])@, trace@[dd + 1]@, offset as int, dd),
            on_round(offset as int, cd as int, cidx as int),
            entry_ok(ov, nv, trace@[cd as int]@, round_end(trace@, v@, cd as int, last), offset as int, cd as int, cidx as int),
            x == round_end(trace@, v@, cd as int, last)[cidx as int],
            y == x + offset - cidx,
            script_from(ov, nv, fwd, x as int, y as int),
            changes@.len() == fwd.len(),
            forall|i: int| 0 <= i < fwd.len() ==> #[trigger] fwd[i] == changes@[fwd.len() - 1 - i],
            cd == last ==> fwd.len() == 0,
            script_cost(fwd) == last - cd,
            edit_rounds(ov, nv) == last,
            forall|dd: int, j: int| 0 <= dd < last && on_round(offset as int, dd, j) ==>
                #[trigger] trace@[dd + 1]@[j] == furthest(ov, nv, dd, j - offset),
            walk_back(ov, nv, cd as int, cidx - offset) + fwd == walk_back(ov, nv, last, n - m),
        decreases cd,
    {
        let ghost k: int = cidx - offset;
        let v_d = &trace[cd];
        proof {
            let pv = trace@[cd - 1]@;
            assert(round_ok(ov, nv, pv, trace@[cd as int]@, offset as int, cd - 1));
            if cidx != offset - cd {
                assert(on_round(offset as int, cd - 1, cidx - 1));
                assert(entry_ok(ov, nv, pv, trace@[cd as int]@, offset as int, cd - 1, cidx - 1));
            }
            if cidx != offset + cd {
                assert(on_round(offset as int, cd - 1, cidx + 1));
                assert(entry_ok(ov, nv, pv, trace@[cd as int]@, offset as int, cd - 1, cidx + 1));
            }
        }
        let prev_idx = if cidx == offset - cd || (cidx != offset + cd && v_d[cidx - 1] < v_d[cidx + 1]) {
            cidx + 1
        } else {
            cidx - 1
        };
        let prev_x = v_d[prev_idx];
        let prev_y = prev_x + offset - prev_idx;
        let ghost pd: int = cd - 1;
        proof {
            assert(trace@[pd + 1] == trace@[cd as int]);
            if cidx != offset - cd {
                assert(on_round(offset as int, pd, cidx - 1));
                assert(trace@[pd + 1]@[cidx - 1] == furthest(ov, nv, pd, k - 1));
            }
            if cidx != offset + cd {
                assert(on_round(offset as int, pd, cidx + 1));
                assert(trace@[pd + 1]@[cidx + 1] == furthest(ov, nv, pd, k + 1));
            }
            assert(prev_idx - offset == back_step(ov, nv, cd as int, k));
            assert(prev_x == furthest(ov, nv, pd, prev_idx - offset));
        }
        let ghost blk = back_block(ov, nv, cd as int, k);
        let ghost wb_here = walk_back(ov, nv, cd as int, k);
        let ghost k_prev: int = prev_idx - offset;
        let ghost sx = round_start(trace@[cd as int]@, offset as int, cd as int, cidx as int);
        assert(prev_idx == cidx + 1 ==> sx == prev_x);
        assert(prev_idx == cidx - 1 ==> sx == prev_x + 1);
        while x > prev_x && y > prev_y
            invariant
                prev_idx == cidx + 1 || prev_idx == cidx - 1,
                sx <= x,
                y == x - k,
                k == cidx - offset,
                prev_idx == cidx + 1 ==> sx == prev_x && prev_y + 1 == sx - k,
                prev_idx == cidx - 1 ==> sx == prev_x + 1 && prev_y == sx - k,
                snake(ov, nv, k, sx, round_end(trace@, v@, cd as int, last)[cidx as int] as int),
                x <= round_end(trace@, v@, cd as int, last)[cidx as int],
                script_from(ov, nv, fwd, x as int, y as int),
            decreases x,
        {
            assert(ov[x - 1] == nv[x - 1 - k]);
            assert(equal_run(ov, nv, x - 1, y - 1, x as int, y as int)) by {
                assert forall|t: int| 0 <= t < 1 implies #[trigger] ov[x - 1 + t] == nv[y - 1 + t] by {}
            }
            proof {
                lemma_run_then_script(ov, nv, fwd, x - 1, y - 1, x as int, y as int);
            }
            x = x - 1;
            y = y - 1;
        }
        assert(x == sx);
        let ghost before = fwd;
        if prev_x < x {
            let c = DiffChange {
                original_start: prev_x,
                original_length: x - prev_x,
                modified_start: prev_y,
                modified_length: 0,
            };
            changes.push(c);
            proof {
                fwd = seq![c] + before;
                assert(fwd.drop_first() =~= before);
                assert(equal_run(ov, nv, prev_x as int, prev_y as int, prev_x as int, prev_y as int));
                assert forall|i: int| 0 <= i < fwd.len() implies #[trigger] fwd[i] == changes@[fwd.len() - 1 - i] by {
                    if i > 0 {
                        assert(fwd[i] == before[i - 1]);
                    }
                }
            }
        } else if prev_y < y {
            let c = DiffChange {
                original_start: prev_x,
                original_length: 0,
                modified_start: prev_y,
                modified_length: y - prev_y,
            };
            changes.push(c);
            proof {
                fwd = seq![c] + before;
                assert(fwd.drop_first() =~= before);
                assert(equal_run(ov, nv, prev_x as int, prev_y as int, prev_x as int, prev_y as int));
                assert forall|i: int| 0 <= i < fwd.len() implies #[trigger] fwd[i] == changes@[fwd.len() - 1 - i] by {
                    if i > 0 {
                        assert(fwd[i] == before[i - 1]);
                    }
                }
            }
        }
        proof {
            assert(fwd == seq![blk] + before);
            assert(wb_here == walk_back(ov, nv, pd, k_prev) + seq![blk]);
            assert(walk_back(ov, nv, pd, k_prev) + fwd =~= wb_here + before);
        }
        x = prev_x;
        y = prev_y;
        cidx = prev_idx;
        cd = cd - 1;
        proof {
            assert(round_end(trace@, v@, cd as int, last) == trace@[cd + 1]@);
            assert(on_round(offset as int, cd as int, cidx as int));
            assert(round_ok(ov, nv, trace@[cd as int]@, trace@[cd + 1]@, offset as int, cd as int));
            assert(entry_ok(ov, nv, trace@[cd as int]@, trace@[cd + 1]@, offset as int, cd as int, cidx as int));
        }
    }
    proof {
        assert(cidx == offset);
        assert(round_start(trace@[0]@, offset as int, 0, cidx as int) == 0);
        assert(equal_run(ov, nv, 0, 0, x as int, y as int));
        lemma_run_then_script(ov, nv, fwd, 0, 0, x as int, y as int);
    }
    let mut ordered: Vec<DiffChange> = Vec::new();
    let mut i = changes.len();
    while i > 0
        invariant
            i <= changes@.len(),
            changes@.len() == fwd.len(),
            forall|j: int| 0 <= j < fwd.len() ==> #[trigger] fwd[j] == changes@[fwd.len() - 1 - j],
            ordered@ =~= fwd.subrange(0, changes@.len() - i),
        decreases i,
    {
        i = i - 1;
        ordered.push(changes[i]);
    }
    assert(ordered@ =~= fwd);
    proof {
        assert(walk_back(ov, nv, 0, cidx - offset) + fwd =~= fwd);
        assert(fwd == myers_script(ov, nv));
        lemma_script_blocks_fit(ov, nv, fwd, 0, 0);
        lemma_merged_script(ov, nv, fwd);
        if ov == nv {
            assert(last == 0);
            assert(fwd.len() == 0);
        }
    }
    merge_adjacent_changes(&ordered)
}

/// Merges adjacent or overlapping diff changes into combined blocks.
pub fn merge_adjacent_changes(changes: &[DiffChange]) -> (res: Vec<DiffChange>)
    requires
        forall|i: int| 0 <= i < changes@.len() ==> (#[trigger] changes@[i]).ends_fit(),
    ensures
        res@ == merged(changes@),
{
    if changes.len() == 0 {
        return Vec::new();
    }
    let mut out: Vec<DiffChange> = Vec::new();
    let mut current = changes[0];
    let mut i: usize = 1;
    while i < changes.len()
        invariant
            1 <= i <= changes@.len(),
            forall|j: int| 0 <= j < changes@.len() ==> (#[trigger] changes@[j]).ends_fit(),
            current.ends_fit(),
            out@ + merge_from(current, changes@.subrange(i as int, changes@.len() as int))
                == merge_from(changes@[0], changes@.drop_first()),
        decreases changes@.len() - i,
    {
        let c = changes[i];
        let ghost rest = changes@.subrange(i as int, changes@.len() as int);
        assert(rest[0] == c);
        assert(rest.drop_first() =~= changes@.subrange(i + 1, changes@.len() as int));
        let cur_orig_end = current.original_start + current.original_length;
        let cur_mod_end = current.modified_start + current.modified_length;
        if c.original_start <= cur_orig_end && c.modified_start <= cur_mod_end {
            let c_orig_end = c.original_start + c.original_length;
            let c_mod_end = c.modified_start + c.modified_length;
            let new_orig_end = if c_orig_end > cur_orig_end { c_orig_end } else { cur_orig_end };
            let new_mod_end = if c_mod_end > cur_mod_end { c_mod_end } else { cur_mod_end };
            current = DiffChange {
                original_start: current.original_start,
                original_length: new_orig_end - current.original_start,
                modified_start: current.modified_start,
                modified_length: new_mod_end - current.modified_start,
            };
        } else {
            let ghost before = out@;
            out.push(current);
            assert(out@ + merge_from(c, rest.drop_first()) =~= before + (seq![current] + merge_from(c, rest.drop_first())));
            current = c;
        }
        i = i + 1;
    }
    assert(changes@.subrange(i as int, changes@.len() as int) =~= Seq::<DiffChange>::empty());
    out.push(current);
    out
}

} // verus!

verus! {

/// Character-level diff changes between two strings, by the Myers diff
/// algorithm.
pub fn compute_diff(original: &str, modified: &str) -> (res: Vec<DiffChange>)
    requires
        diff_input_fits(original@.len() as int, modified@.len() as int),
    ensures
        res@ == merged(myers_script(original@, modified@)),
        is_shortest_script(original@, modified@, res@),
        blocks_separated(res@),
        original@ == modified@ ==> res@.len() == 0,
{
    let old_chars = chars_of(original);
    let new_chars = chars_of(modified);
    assert(views(old_chars@) =~= original@);
    assert(views(new_chars@) =~= modified@);
    myers_diff(old_chars.as_slice(), new_chars.as_slice())
}

/// With nothing on the original side, a diff with separated blocks is the
/// single insertion of everything.
pub proof fn lemma_diff_from_empty<A>(old: Seq<A>, new: Seq<A>, cs: Seq<DiffChange>)
    requires
        old.len() == 0,
        new.len() > 0,
        is_edit_script(old, new, cs),
        blocks_separated(cs),
    ensures
        cs == seq![DiffChange { original_start: 0, original_length: 0, modified_start: 0, modified_length: new.len() as usize }],
{
    lemma_one_sided(old, new, cs);
}

/// With nothing on the modified side, a diff with separated blocks is the
/// single removal of everything.
pub proof fn lemma_diff_to_empty<A>(old: Seq<A>, new: Seq<A>, cs: Seq<DiffChange>)
    requires
        old.len() > 0,
        new.len() == 0,
        is_edit_script(old, new, cs),
        blocks_separated(cs),
    ensures
        cs == seq![DiffChange { original_start: 0, original_length: old.len() as usize, modified_start: 0, modified_length: 0 }],
{
    lemma_one_sided(old, new, cs);
}

proof fn lemma_one_sided<A>(old: Seq<A>, new: Seq<A>, cs: Seq<DiffChange>)
    requires
        old.len() == 0 || new.len() == 0,
        old.len() + new.len() > 0,
        is_edit_script(old, new, cs),
        blocks_separated(cs),
    ensures
        cs == seq![DiffChange { original_start: 0, original_length: old.len() as usize, modified_start: 0, modified_length: new.len() as usize }],
{
    reveal_with_fuel(script_from, 3);
    if cs.len() == 0 {
        assert(equal_run(old, new, 0, 0, old.len() as int, new.len() as int));
    } else {
        let c = cs[0];
        assert(equal_run(old, new, 0, 0, c.original_start as int, c.modified_start as int));
        assert(c.original_start == 0 && c.modified_start == 0);
        let rest = cs.drop_first();
        assert(script_from(old, new, rest, c.original_end(), c.modified_end()));
        if rest.len() > 0 {
            assert(equal_run(old, new, c.original_end(), c.modified_end(), rest[0].original_start as int, rest[0].modified_start as int));
            assert(cs[1] == rest[0]);
            assert(cs[0].original_end() < cs[1].original_start);
            assert(false);
        } else {
            assert(equal_run(old, new, c.original_end(), c.modified_end(), old.len() as int, new.len() as int));
            assert(cs =~= seq![c]);
        }
    }
}

} // verus!

verus! {

/// The kind of a line-level diff entry.
#[derive(Debug, Clone, Copy, PartialEq, Eq, Structural)]
pub enum LineDiffKind {
    Equal,
    Added,
    Removed,
    Modified,
}

/// A single line-level diff entry.
#[derive(Debug, Clone, PartialEq, Eq)]
pub enum LineDiff {
    /// The line is unchanged.
    Equal(String),
    /// The line was added in the modified version.
    Added(String),
    /// The line was removed from the original.
    Removed(String),
    /// The line was modified (old, new).
    Modified(String, String),
}

/// An entry seen as its kind, its original line and its modified line (empty
/// on the side where it has none).
pub type LineRow = (LineDiffKind, Seq<char>, Seq<char>);

impl View for LineDiff {
    type V = LineRow;

    open spec fn view(&self) -> LineRow {
        match self {
            LineDiff::Equal(s) => (LineDiffKind::Equal, s@, s@),
            LineDiff::Added(s) => (LineDiffKind::Added, Seq::empty(), s@),
            LineDiff::Removed(s) => (LineDiffKind::Removed, s@, Seq::empty()),
            LineDiff::Modified(a, b) => (LineDiffKind::Modified, a@, b@),
        }
    }
}

/// The original lines that the entries mention, in order.
pub open spec fn original_side(rows: Seq<LineRow>) -> Seq<Seq<char>>
    decreases rows.len(),
{
    if rows.len() == 0 {
        Seq::empty()
    } else {
        (if rows[0].0 == LineDiffKind::Added { Seq::empty() } else { seq![rows[0].1] })
            + original_side(rows.drop_first())
    }
}

/// The modified lines that the entries mention, in order.
pub open spec fn modified_side(rows: Seq<LineRow>) -> Seq<Seq<char>>
    decreases rows.len(),
{
    if rows.len() == 0 {
        Seq::empty()
    } else {
        (if rows[0].0 == LineDiffKind::Removed { Seq::empty() } else { seq![rows[0].2] })
            + modified_side(rows.drop_first())
    }
}

/// `count` unchanged lines of the original from `from` on.
pub open spec fn equal_rows(ov: Seq<Seq<char>>, from: int, count: int) -> Seq<LineRow> {
    Seq::new(count as nat, |i: int| (LineDiffKind::Equal, ov[from + i], ov[from + i]))
}

/// The lines that a changed block pairs as modified.
pub open spec fn modified_rows(ov: Seq<Seq<char>>, nv: Seq<Seq<char>>, c: DiffChange) -> Seq<LineRow> {
    let common = if c.original_length < c.modified_length { c.original_length } else { c.modified_length };
    Seq::new(common as nat, |i: int| (LineDiffKind::Modified, ov[c.original_start + i], nv[c.modified_start + i]))
}

/// The original lines of a block left over after pairing.
pub open spec fn removed_rows(ov: Seq<Seq<char>>, c: DiffChange) -> Seq<LineRow> {
    let common = if c.original_length < c.modified_length { c.original_length } else { c.modified_length };
    Seq::new((c.original_length - common) as nat, |i: int| (LineDiffKind::Removed, ov[c.original_start + common + i], Seq::<char>::empty()))
}

/// The modified lines of a block left over after pairing.
pub open spec fn added_rows(nv: Seq<Seq<char>>, c: DiffChange) -> Seq<LineRow> {
    let common = if c.original_length < c.modified_length { c.original_length } else { c.modified_length };
    Seq::new((c.modified_length - common) as nat, |i: int| (LineDiffKind::Added, Seq::<char>::empty(), nv[c.modified_start + common + i]))
}

/// A block rendered as lines: pairs first, then the removed, then the added.
pub open spec fn block_rows(ov: Seq<Seq<char>>, nv: Seq<Seq<char>>, c: DiffChange) -> Seq<LineRow> {
    modified_rows(ov, nv, c) + removed_rows(ov, c) + added_rows(nv, c)
}

/// The line entries of the script `cs` from position `(pos_o, pos_m)` on.
pub open spec fn rows_from(ov: Seq<Seq<char>>, nv: Seq<Seq<char>>, cs: Seq<DiffChange>, pos_o: int, pos_m: int) -> Seq<LineRow>
    decreases cs.len(),
{
    if cs.len() == 0 {
        equal_rows(ov, pos_o, ov.len() - pos_o)
    } else {
        equal_rows(ov, pos_o, cs[0].original_start - pos_o) + block_rows(ov, nv, cs[0])
            + rows_from(ov, nv, cs.drop_first(), cs[0].original_end(), cs[0].modified_end())
    }
}

/// The line entries of the script `cs`.
pub open spec fn line_rows(ov: Seq<Seq<char>>, nv: Seq<Seq<char>>, cs: Seq<DiffChange>) -> Seq<LineRow> {
    rows_from(ov, nv, cs, 0, 0)
}

/// The number of entries that report an unchanged line.
pub open spec fn equal_count(rows: Seq<LineRow>) -> nat {
    rows.filter(|r: LineRow| r.0 == LineDiffKind::Equal).len()
}

/// Filtering keeps a sequence whole when every element passes.
proof fn lemma_filter_keeps_all<A>(s: Seq<A>, p: spec_fn(A) -> bool)
    requires
        forall|i: int| 0 <= i < s.len() ==> p(#[trigger] s[i]),
    ensures
        s.filter(p) == s,
    decreases s.len(),
{
    reveal(Seq::filter);
    if s.len() > 0 {
        lemma_filter_keeps_all(s.drop_last(), p);
        assert(s.drop_last().push(s.last()) =~= s);
    }
}

/// Filtering leaves nothing when no element passes.
proof fn lemma_filter_keeps_none<A>(s: Seq<A>, p: spec_fn(A) -> bool)
    requires
        forall|i: int| 0 <= i < s.len() ==> !p(#[trigger] s[i]),
    ensures
        s.filter(p).len() == 0,
    decreases s.len(),
{
    reveal(Seq::filter);
    if s.len() > 0 {
        lemma_filter_keeps_none(s.drop_last(), p);
    }
}

proof fn lemma_equal_count_concat(a: Seq<LineRow>, b: Seq<LineRow>)
    ensures
        equal_count(a + b) == equal_count(a) + equal_count(b),
{
    Seq::filter_distributes_over_add(a, b, |r: LineRow| r.0 == LineDiffKind::Equal);
}

/// Unchanged lines of a script from `(pos_o, pos_m)`: each of its equal runs
/// becomes Equal entries, and nothing else does.
proof fn lemma_rows_equal_count(ov: Seq<Seq<char>>, nv: Seq<Seq<char>>, cs: Seq<DiffChange>, pos_o: int, pos_m: int)
    requires
        script_from(ov, nv, cs, pos_o, pos_m),
    ensures
        2 * equal_count(rows_from(ov, nv, cs, pos_o, pos_m)) + script_cost(cs)
            == ov.len() - pos_o + nv.len() - pos_m,
    decreases cs.len(),
{
    let p = |r: LineRow| r.0 == LineDiffKind::Equal;
    if cs.len() == 0 {
        lemma_filter_keeps_all(equal_rows(ov, pos_o, ov.len() - pos_o), p);
    } else {
        let c = cs[0];
        let e = equal_rows(ov, pos_o, c.original_start - pos_o);
        let b = block_rows(ov, nv, c);
        let rest = rows_from(ov, nv, cs.drop_first(), c.original_end(), c.modified_end());
        lemma_rows_equal_count(ov, nv, cs.drop_first(), c.original_end(), c.modified_end());
        lemma_filter_keeps_all(e, p);
        lemma_filter_keeps_none(b, p);
        lemma_equal_count_concat(e, b);
        lemma_equal_count_concat(e + b, rest);
    }
}

/// The entries of an edit script report as unchanged exactly the lines that
/// it leaves unchanged: twice their number and the script's cost make up
/// the lines of both sides.
pub proof fn lemma_line_rows_unchanged(ov: Seq<Seq<char>>, nv: Seq<Seq<char>>, cs: Seq<DiffChange>)
    requires
        is_edit_script(ov, nv, cs),
    ensures
        2 * equal_count(line_rows(ov, nv, cs)) + script_cost(cs) == ov.len() + nv.len(),
{
    lemma_rows_equal_count(ov, nv, cs, 0, 0);
}

/// Where a script that starts at `(pos_o, pos_m)` stands after the blocks
/// `a`: at the end of its last block.
pub open spec fn end_of(a: Seq<DiffChange>, pos_o: int, pos_m: int) -> (int, int) {
    if a.len() == 0 {
        (pos_o, pos_m)
    } else {
        (a.last().original_end(), a.last().modified_end())
    }
}

proof fn lemma_script_cost_concat(a: Seq<DiffChange>, b: Seq<DiffChange>)
    ensures
        script_cost(a + b) == script_cost(a) + script_cost(b),
    decreases a.len(),
{
    if a.len() == 0 {
        assert(a + b =~= b);
    } else {
        lemma_script_cost_concat(a.drop_first(), b);
        assert((a + b).drop_first() =~= a.drop_first() + b);
        assert((a + b)[0] == a[0]);
    }
}

/// In a script `a + b`, the part `b` is a script from where `a` ends, and
/// any other script from there can take its place.
proof fn lemma_script_replace_tail<A>(old: Seq<A>, new: Seq<A>, a: Seq<DiffChange>, b: Seq<DiffChange>, b2: Seq<DiffChange>, pos_o: int, pos_m: int)
    requires
        script_from(old, new, a + b, pos_o, pos_m),
    ensures
        script_from(old, new, b, end_of(a, pos_o, pos_m).0, end_of(a, pos_o, pos_m).1),
        script_from(old, new, b2, end_of(a, pos_o, pos_m).0, end_of(a, pos_o, pos_m).1)
            ==> script_from(old, new, a + b2, pos_o, pos_m),
    decreases a.len(),
{
    if a.len() == 0 {
        assert(a + b =~= b);
        assert(a + b2 =~= b2);
    } else {
        let c = a[0];
        assert((a + b)[0] == c);
        assert((a + b).drop_first() =~= a.drop_first() + b);
        assert((a + b2)[0] == c);
        assert((a + b2).drop_first() =~= a.drop_first() + b2);
        lemma_script_replace_tail(old, new, a.drop_first(), b, b2, c.original_end(), c.modified_end());
        if a.len() > 1 {
            assert(a.drop_first().last() == a.last());
        }
    }
}

/// A block whose `i`-th removed element equals its `i`-th inserted element
/// can be split around that pair, and the script gets cheaper by two.
proof fn lemma_split_matching_pair<A>(old: Seq<A>, new: Seq<A>, cs: Seq<DiffChange>, pos_o: int, pos_m: int, i: int) -> (cs2: Seq<DiffChange>)
    requires
        old.len() <= usize::MAX,
        new.len() <= usize::MAX,
        script_from(old, new, cs, pos_o, pos_m),
        cs.len() > 0,
        0 <= i < cs[0].original_length,
        i < cs[0].modified_length,
        old[cs[0].original_start + i] == new[cs[0].modified_start + i],
    ensures
        script_from(old, new, cs2, pos_o, pos_m),
        script_cost(cs2) + 2 == script_cost(cs),
{
    let c = cs[0];
    let tail = cs.drop_first();
    let os = c.original_start as int;
    let ms = c.modified_start as int;
    let ol = c.original_length as int;
    let ml = c.modified_length as int;
    lemma_script_bounds(old, new, tail, c.original_end(), c.modified_end());
    let b2 = DiffChange {
        original_start: (os + i + 1) as usize,
        original_length: (ol - i - 1) as usize,
        modified_start: (ms + i + 1) as usize,
        modified_length: (ml - i - 1) as usize,
    };
    let s2 = if ol + ml > 2 * i + 2 { seq![b2] + tail } else { tail };
    if ol + ml > 2 * i + 2 {
        assert(s2[0] == b2);
        assert(s2.drop_first() =~= tail);
        assert(equal_run(old, new, os + i + 1, ms + i + 1, os + i + 1, ms + i + 1));
        assert(script_cost(s2) == ol + ml - 2 * i - 2 + script_cost(tail));
    }
    assert(script_from(old, new, s2, os + i + 1, ms + i + 1));
    assert(equal_run(old, new, os + i, ms + i, os + i + 1, ms + i + 1)) by {
        assert forall|t: int| 0 <= t < 1 implies #[trigger] old[os + i + t] == new[ms + i + t] by {}
    }
    lemma_run_then_script(old, new, s2, os + i, ms + i, os + i + 1, ms + i + 1);
    if i > 0 {
        let b1 = DiffChange {
            original_start: os as usize,
            original_length: i as usize,
            modified_start: ms as usize,
            modified_length: i as usize,
        };
        let cs2 = seq![b1] + s2;
        assert(cs2[0] == b1);
        assert(cs2.drop_first() =~= s2);
        assert(script_from(old, new, cs2, pos_o, pos_m));
        cs2
    } else {
        lemma_run_then_script(old, new, s2, pos_o, pos_m, os, ms);
        s2
    }
}

/// The `i`-th element that block `c` removes differs from the `i`-th that it
/// inserts.
pub open spec fn pair_differs<A>(old: Seq<A>, new: Seq<A>, c: DiffChange, i: int) -> bool {
    old[c.original_start + i] != new[c.modified_start + i]
}

/// In a shortest script no block removes and inserts equal elements at the
/// same place: its `i`-th removed and `i`-th inserted elements differ.
pub proof fn lemma_shortest_blocks_differ<A>(old: Seq<A>, new: Seq<A>, cs: Seq<DiffChange>)
    requires
        old.len() <= usize::MAX,
        new.len() <= usize::MAX,
        is_shortest_script(old, new, cs),
    ensures
        forall|j: int, i: int| 0 <= j < cs.len() && 0 <= i < cs[j].original_length && i < cs[j].modified_length
            ==> #[trigger] pair_differs(old, new, cs[j], i),
{
    assert forall|j: int, i: int| 0 <= j < cs.len() && 0 <= i < cs[j].original_length && i < cs[j].modified_length
        implies #[trigger] pair_differs(old, new, cs[j], i) by {
        if !pair_differs(old, new, cs[j], i) {
            let a = cs.take(j);
            let b = cs.skip(j);
            assert(cs =~= a + b);
            lemma_script_replace_tail(old, new, a, b, b, 0, 0);
            let e = end_of(a, 0, 0);
            assert(b[0] == cs[j]);
            let b2 = lemma_split_matching_pair(old, new, b, e.0, e.1, i);
            lemma_script_replace_tail(old, new, a, b, b2, 0, 0);
            lemma_script_cost_concat(a, b);
            lemma_script_cost_concat(a, b2);
            assert(is_edit_script(old, new, a + b2));
        }
    }
}

/// The pairs of a script's entries differ when its blocks pair only
/// different elements.
proof fn lemma_rows_modified_differ(ov: Seq<Seq<char>>, nv: Seq<Seq<char>>, cs: Seq<DiffChange>, pos_o: int, pos_m: int)
    requires
        forall|j: int, i: int| 0 <= j < cs.len() && 0 <= i < cs[j].original_length && i < cs[j].modified_length
            ==> #[trigger] pair_differs(ov, nv, cs[j], i),
    ensures
        forall|k: int| 0 <= k < rows_from(ov, nv, cs, pos_o, pos_m).len()
            && (#[trigger] rows_from(ov, nv, cs, pos_o, pos_m)[k]).0 == LineDiffKind::Modified
            ==> rows_from(ov, nv, cs, pos_o, pos_m)[k].1 != rows_from(ov, nv, cs, pos_o, pos_m)[k].2,
    decreases cs.len(),
{
    if cs.len() > 0 {
        let c = cs[0];
        let tl = cs.drop_first();
        assert forall|j: int, i: int| 0 <= j < tl.len() && 0 <= i < tl[j].original_length && i < tl[j].modified_length
            implies #[trigger] pair_differs(ov, nv, tl[j], i) by {
            assert(tl[j] == cs[j + 1]);
        }
        lemma_rows_modified_differ(ov, nv, tl, c.original_end(), c.modified_end());
        let e = equal_rows(ov, pos_o, c.original_start - pos_o);
        let mr = modified_rows(ov, nv, c);
        let rr = removed_rows(ov, c);
        let ar = added_rows(nv, c);
        let rest = rows_from(ov, nv, tl, c.original_end(), c.modified_end());
        let all = rows_from(ov, nv, cs, pos_o, pos_m);
        assert(all =~= e + mr + rr + ar + rest);
        assert forall|k: int| 0 <= k < all.len() && (#[trigger] all[k]).0 == LineDiffKind::Modified
            implies all[k].1 != all[k].2 by {
            let k1 = k - e.len();
            if k < e.len() {
            } else if k1 < mr.len() {
                assert(all[k] == mr[k1]);
                assert(pair_differs(ov, nv, cs[0], k1));
            } else if k1 < mr.len() + rr.len() {
                assert(all[k] == rr[k1 - mr.len()]);
            } else if k1 < mr.len() + rr.len() + ar.len() {
                assert(all[k] == ar[k1 - mr.len() - rr.len()]);
            } else {
                assert(all[k] == rest[k1 - mr.len() - rr.len() - ar.len()]);
            }
        }
    }
}

/// The entries of a shortest script never report a line as modified into
/// itself: each Modified entry pairs two different lines.
pub proof fn lemma_line_rows_modified_differ(ov: Seq<Seq<char>>, nv: Seq<Seq<char>>, cs: Seq<DiffChange>)
    requires
        ov.len() <= usize::MAX,
        nv.len() <= usize::MAX,
        is_shortest_script(ov, nv, cs),
    ensures
        forall|k: int| 0 <= k < line_rows(ov, nv, cs).len()
            && (#[trigger] line_rows(ov, nv, cs)[k]).0 == LineDiffKind::Modified
            ==> line_rows(ov, nv, cs)[k].1 != line_rows(ov, nv, cs)[k].2,
{
    lemma_shortest_blocks_differ(ov, nv, cs);
    lemma_rows_modified_differ(ov, nv, cs, 0, 0);
}

/// Entry `y` may come right after entry `x`: a removed line is followed by
/// another removed line or an unchanged one, an added line likewise, and a
/// modified line comes only after an unchanged or a modified one.
pub open spec fn may_follow(x: LineRow, y: LineRow) -> bool {
    &&& x.0 == LineDiffKind::Removed ==> (y.0 == LineDiffKind::Removed || y.0 == LineDiffKind::Equal)
    &&& x.0 == LineDiffKind::Added ==> (y.0 == LineDiffKind::Added || y.0 == LineDiffKind::Equal)
    &&& y.0 == LineDiffKind::Modified ==> (x.0 == LineDiffKind::Equal || x.0 == LineDiffKind::Modified)
}

/// Within each changed stretch the lines are paired as modified as far as
/// both sides go, and only one side has lines left over: every entry may
/// follow the one before it.
pub open spec fn entries_in_order(rows: Seq<LineRow>) -> bool {
    forall|k: int| 0 <= k < rows.len() - 1 ==> #[trigger] may_follow(rows[k], rows[k + 1])
}

proof fn lemma_in_order_concat(a: Seq<LineRow>, b: Seq<LineRow>)
    requires
        entries_in_order(a),
        entries_in_order(b),
        a.len() > 0 && b.len() > 0 ==> may_follow(a.last(), b[0]),
    ensures
        entries_in_order(a + b),
{
    let ab = a + b;
    assert forall|k: int| 0 <= k < ab.len() - 1 implies #[trigger] may_follow(ab[k], ab[k + 1]) by {
        if k + 1 < a.len() {
            assert(ab[k] == a[k] && ab[k + 1] == a[k + 1]);
            assert(may_follow(a[k], a[k + 1]));
        } else if k >= a.len() {
            let kb = k - a.len();
            assert(ab[k] == b[kb] && ab[k + 1] == b[kb + 1]);
            assert(may_follow(b[kb], b[kb + 1]));
        } else {
            assert(ab[k] == a.last() && ab[k + 1] == b[0]);
        }
    }
}

/// The entries of a script with separated blocks are in order, and they
/// start with an unchanged line when the first block does not start where
/// the script does.
proof fn lemma_rows_in_order(ov: Seq<Seq<char>>, nv: Seq<Seq<char>>, cs: Seq<DiffChange>, pos_o: int, pos_m: int)
    requires
        script_from(ov, nv, cs, pos_o, pos_m),
        blocks_separated(cs),
    ensures
        entries_in_order(rows_from(ov, nv, cs, pos_o, pos_m)),
        rows_from(ov, nv, cs, pos_o, pos_m).len() > 0 && (cs.len() == 0 || cs[0].original_start > pos_o)
            ==> rows_from(ov, nv, cs, pos_o, pos_m)[0].0 == LineDiffKind::Equal,
    decreases cs.len(),
{
    if cs.len() == 0 {
        let e = equal_rows(ov, pos_o, ov.len() - pos_o);
        assert forall|k: int| 0 <= k < e.len() - 1 implies #[trigger] may_follow(e[k], e[k + 1]) by {}
    } else {
        let c = cs[0];
        let tl = cs.drop_first();
        assert(blocks_separated(tl)) by {
            assert forall|i: int| 0 <= i < tl.len() - 1 implies
                (#[trigger] tl[i]).original_end() < tl[i + 1].original_start
                    && tl[i].modified_end() < tl[i + 1].modified_start by {
                assert(tl[i] == cs[i + 1] && tl[i + 1] == cs[i + 2]);
            }
        }
        lemma_rows_in_order(ov, nv, tl, c.original_end(), c.modified_end());
        if tl.len() > 0 {
            assert(tl[0] == cs[1]);
            assert(cs[0].original_end() < cs[1].original_start);
        }
        let e = equal_rows(ov, pos_o, c.original_start - pos_o);
        let mr = modified_rows(ov, nv, c);
        let rr = removed_rows(ov, c);
        let ar = added_rows(nv, c);
        let rest = rows_from(ov, nv, tl, c.original_end(), c.modified_end());
        assert forall|k: int| 0 <= k < e.len() - 1 implies #[trigger] may_follow(e[k], e[k + 1]) by {}
        assert forall|k: int| 0 <= k < mr.len() - 1 implies #[trigger] may_follow(mr[k], mr[k + 1]) by {}
        assert forall|k: int| 0 <= k < rr.len() - 1 implies #[trigger] may_follow(rr[k], rr[k + 1]) by {}
        assert forall|k: int| 0 <= k < ar.len() - 1 implies #[trigger] may_follow(ar[k], ar[k + 1]) by {}
        assert(rr.len() == 0 || ar.len() == 0);
        lemma_in_order_concat(e, mr);
        if e.len() + mr.len() > 0 && rr.len() > 0 {
            assert((e + mr).last().0 == LineDiffKind::Equal || (e + mr).last().0 == LineDiffKind::Modified);
        }
        lemma_in_order_concat(e + mr, rr);
        if e.len() + mr.len() + rr.len() > 0 && ar.len() > 0 {
            assert(rr.len() == 0);
            assert(e + mr + rr =~= e + mr);
            assert((e + mr).last().0 == LineDiffKind::Equal || (e + mr).last().0 == LineDiffKind::Modified);
        }
        lemma_in_order_concat(e + mr + rr, ar);
        lemma_in_order_concat(e + mr + rr + ar, rest);
        let all = rows_from(ov, nv, cs, pos_o, pos_m);
        assert(all =~= e + mr + rr + ar + rest);
        if all.len() > 0 && c.original_start > pos_o {
            assert(all[0] == e[0]);
        }
    }
}

/// The entries of a script with separated blocks are in order.
pub proof fn lemma_line_rows_in_order(ov: Seq<Seq<char>>, nv: Seq<Seq<char>>, cs: Seq<DiffChange>)
    requires
        is_edit_script(ov, nv, cs),
        blocks_separated(cs),
    ensures
        entries_in_order(line_rows(ov, nv, cs)),
{
    lemma_rows_in_order(ov, nv, cs, 0, 0);
}

/// The views of a list of entries.
pub open spec fn rows_of(ls: Seq<LineDiff>) -> Seq<LineRow> {
    ls.map_values(|l: LineDiff| l@)
}

proof fn lemma_sides_concat(a: Seq<LineRow>, b: Seq<LineRow>)
    ensures
        original_side(a + b) == original_side(a) + original_side(b),
        modified_side(a + b) == modified_side(a) + modified_side(b),
    decreases a.len(),
{
    if a.len() == 0 {
        assert(a + b =~= b);
        assert(original_side(a) =~= Seq::<Seq<char>>::empty());
        assert(original_side(a) + original_side(b) =~= original_side(b));
        assert(modified_side(a) + modified_side(b) =~= modified_side(b));
    } else {
        assert((a + b).drop_first() =~= a.drop_first() + b);
        assert((a + b)[0] == a[0]);
        lemma_sides_concat(a.drop_first(), b);
        let ho = if a[0].0 == LineDiffKind::Added { Seq::<Seq<char>>::empty() } else { seq![a[0].1] };
        let hm = if a[0].0 == LineDiffKind::Removed { Seq::<Seq<char>>::empty() } else { seq![a[0].2] };
        assert(ho + (original_side(a.drop_first()) + original_side(b)) =~= (ho + original_side(a.drop_first())) + original_side(b));
        assert(hm + (modified_side(a.drop_first()) + modified_side(b)) =~= (hm + modified_side(a.drop_first())) + modified_side(b));
    }
}

/// Sides of rows none of which is `Added` (resp. `Removed`, `Added` or `Removed`).
proof fn lemma_sides_uniform(rows: Seq<LineRow>)
    ensures
        (forall|i: int| 0 <= i < rows.len() ==> (#[trigger] rows[i]).0 != LineDiffKind::Added)
            ==> original_side(rows) == Seq::new(rows.len(), |i: int| rows[i].1),
        (forall|i: int| 0 <= i < rows.len() ==> (#[trigger] rows[i]).0 != LineDiffKind::Removed)
            ==> modified_side(rows) == Seq::new(rows.len(), |i: int| rows[i].2),
        (forall|i: int| 0 <= i < rows.len() ==> (#[trigger] rows[i]).0 == LineDiffKind::Added)
            ==> original_side(rows) == Seq::<Seq<char>>::empty(),
        (forall|i: int| 0 <= i < rows.len() ==> (#[trigger] rows[i]).0 == LineDiffKind::Removed)
            ==> modified_side(rows) == Seq::<Seq<char>>::empty(),
    decreases rows.len(),
{
    if rows.len() > 0 {
        let t = rows.drop_first();
        lemma_sides_uniform(t);
        assert forall|i: int| 0 <= i < t.len() implies #[trigger] t[i] == rows[i + 1] by {}
        if forall|i: int| 0 <= i < rows.len() ==> (#[trigger] rows[i]).0 != LineDiffKind::Added {
            assert(forall|i: int| 0 <= i < t.len() ==> (#[trigger] t[i]).0 != LineDiffKind::Added);
            assert(original_side(rows) =~= Seq::new(rows.len(), |i: int| rows[i].1));
        }
        if forall|i: int| 0 <= i < rows.len() ==> (#[trigger] rows[i]).0 != LineDiffKind::Removed {
            assert(forall|i: int| 0 <= i < t.len() ==> (#[trigger] t[i]).0 != LineDiffKind::Removed);
            assert(modified_side(rows) =~= Seq::new(rows.len(), |i: int| rows[i].2));
        }
        if forall|i: int| 0 <= i < rows.len() ==> (#[trigger] rows[i]).0 == LineDiffKind::Added {
            assert(forall|i: int| 0 <= i < t.len() ==> (#[trigger] t[i]).0 == LineDiffKind::Added);
            assert(original_side(rows) =~= Seq::<Seq<char>>::empty());
        }
        if forall|i: int| 0 <= i < rows.len() ==> (#[trigger] rows[i]).0 == LineDiffKind::Removed {
            assert(forall|i: int| 0 <= i < t.len() ==> (#[trigger] t[i]).0 == LineDiffKind::Removed);
            assert(modified_side(rows) =~= Seq::<Seq<char>>::empty());
        }
    }
}

/// The unchanged lines of an equal run show the run on both sides.
proof fn lemma_equal_rows_sides(ov: Seq<Seq<char>>, nv: Seq<Seq<char>>, po: int, pm: int, to_o: int, to_m: int)
    requires
        equal_run(ov, nv, po, pm, to_o, to_m),
    ensures
        original_side(equal_rows(ov, po, to_o - po)) == ov.subrange(po, to_o),
        modified_side(equal_rows(ov, po, to_o - po)) == nv.subrange(pm, to_m),
{
    let e = equal_rows(ov, po, to_o - po);
    lemma_sides_uniform(e);
    assert(original_side(e) =~= ov.subrange(po, to_o));
    assert forall|i: int| 0 <= i < e.len() implies #[trigger] e[i].2 == nv.subrange(pm, to_m)[i] by {
        assert(ov[po + i] == nv[pm + i]);
    }
    assert(modified_side(e) =~= nv.subrange(pm, to_m));
}

/// A block's lines show its original part and its modified part.
proof fn lemma_block_sides(ov: Seq<Seq<char>>, nv: Seq<Seq<char>>, c: DiffChange)
    requires
        c.original_end() <= ov.len(),
        c.modified_end() <= nv.len(),
    ensures
        original_side(block_rows(ov, nv, c)) == ov.subrange(c.original_start as int, c.original_end()),
        modified_side(block_rows(ov, nv, c)) == nv.subrange(c.modified_start as int, c.modified_end()),
{
    let mr = modified_rows(ov, nv, c);
    let rr = removed_rows(ov, c);
    let ar = added_rows(nv, c);
    lemma_sides_uniform(mr);
    lemma_sides_uniform(rr);
    lemma_sides_uniform(ar);
    lemma_sides_concat(mr, rr);
    lemma_sides_concat(mr + rr, ar);
    let common = if c.original_length < c.modified_length { c.original_length as int } else { c.modified_length as int };
    assert(original_side(mr) =~= ov.subrange(c.original_start as int, c.original_start + common));
    assert(original_side(rr) =~= ov.subrange(c.original_start + common, c.original_end()));
    assert(modified_side(mr) =~= nv.subrange(c.modified_start as int, c.modified_start + common));
    assert(modified_side(ar) =~= nv.subrange(c.modified_start + common, c.modified_end()));
    assert(ov.subrange(c.original_start as int, c.original_end()) =~= ov.subrange(c.original_start as int, c.original_start + common)
        + ov.subrange(c.original_start + common, c.original_end()) + Seq::<Seq<char>>::empty());
    assert(nv.subrange(c.modified_start as int, c.modified_end()) =~= nv.subrange(c.modified_start as int, c.modified_start + common)
        + Seq::<Seq<char>>::empty() + nv.subrange(c.modified_start + common, c.modified_end()));
}

/// The entries of an edit script list every original line and every
/// modified line, each once and in order.
proof fn lemma_rows_sides(ov: Seq<Seq<char>>, nv: Seq<Seq<char>>, cs: Seq<DiffChange>, pos_o: int, pos_m: int)
    requires
        script_from(ov, nv, cs, pos_o, pos_m),
    ensures
        original_side(rows_from(ov, nv, cs, pos_o, pos_m)) == ov.subrange(pos_o, ov.len() as int),
        modified_side(rows_from(ov, nv, cs, pos_o, pos_m)) == nv.subrange(pos_m, nv.len() as int),
    decreases cs.len(),
{
    if cs.len() == 0 {
        lemma_equal_rows_sides(ov, nv, pos_o, pos_m, ov.len() as int, nv.len() as int);
    } else {
        let c = cs[0];
        let e = equal_rows(ov, pos_o, c.original_start - pos_o);
        let b = block_rows(ov, nv, c);
        let rest = rows_from(ov, nv, cs.drop_first(), c.original_end(), c.modified_end());
        lemma_script_bounds(ov, nv, cs.drop_first(), c.original_end(), c.modified_end());
        lemma_rows_sides(ov, nv, cs.drop_first(), c.original_end(), c.modified_end());
        lemma_equal_rows_sides(ov, nv, pos_o, pos_m, c.original_start as int, c.modified_start as int);
        lemma_block_sides(ov, nv, c);
        lemma_sides_concat(e, b);
        lemma_sides_concat(e + b, rest);
        assert(ov.subrange(pos_o, ov.len() as int) =~= ov.subrange(pos_o, c.original_start as int)
            + ov.subrange(c.original_start as int, c.original_end()) + ov.subrange(c.original_end(), ov.len() as int));
        assert(nv.subrange(pos_m, nv.len() as int) =~= nv.subrange(pos_m, c.modified_start as int)
            + nv.subrange(c.modified_start as int, c.modified_end()) + nv.subrange(c.modified_end(), nv.len() as int));
    }
}

} // verus!

verus! {

broadcast use vstd::string::group_string_axioms;

/// An equal run stays equal after dropping its first pair.
proof fn lemma_equal_run_step<A>(old: Seq<A>, new: Seq<A>, ao: int, am: int, bo: int, bm: int)
    requires
        equal_run(old, new, ao, am, bo, bm),
        ao < bo,
    ensures
        equal_run(old, new, ao + 1, am + 1, bo, bm),
        old[ao] == new[am],
{
    assert(old[ao + 0] == new[am + 0]);
    assert forall|t: int| 0 <= t < bo - (ao + 1) implies #[trigger] old[ao + 1 + t] == new[am + 1 + t] by {
        assert(old[ao + (t + 1)] == new[am + (t + 1)]);
    }
}

/// Handing the first planned entry over to the output keeps the plan.
proof fn lemma_emit(done: Seq<LineRow>, ahead: Seq<LineRow>, full: Seq<LineRow>, r: LineRow)
    requires
        done + ahead == full,
        ahead.len() > 0,
        ahead[0] == r,
    ensures
        done.push(r) + ahead.drop_first() == full,
{
    assert(done.push(r) + ahead.drop_first() =~= done + ahead);
}

/// Line-level diff entries between two lists of lines.
pub fn compute_line_diff(original: &[&str], modified: &[&str]) -> (res: Vec<LineDiff>)
    requires
        diff_input_fits(original@.len() as int, modified@.len() as int),
    ensures
        original_side(rows_of(res@)) == views(original@),
        modified_side(rows_of(res@)) == views(modified@),
        rows_of(res@) == line_rows(views(original@), views(modified@),
            merged(myers_script(views(original@), views(modified@)))),
        exists|cs: Seq<DiffChange>|
            is_shortest_script(views(original@), views(modified@), cs) && blocks_separated(cs)
                && #[trigger] rows_of(res@) == line_rows(views(original@), views(modified@), cs),
        forall|cs: Seq<DiffChange>| #[trigger] is_edit_script(views(original@), views(modified@), cs)
            ==> original@.len() + modified@.len() <= 2 * equal_count(rows_of(res@)) + script_cost(cs),
        forall|k: int| 0 <= k < res@.len() && (#[trigger] rows_of(res@)[k]).0 == LineDiffKind::Modified
            ==> rows_of(res@)[k].1 != rows_of(res@)[k].2,
        entries_in_order(rows_of(res@)),
{
    let changes = myers_diff(original, modified);
    let olen = original.len();
    let mlen = modified.len();
    let ghost ov = views(original@);
    let ghost nv = views(modified@);
    let ghost cs = changes@;
    let ghost full = line_rows(ov, nv, cs);
    let mut result: Vec<LineDiff> = Vec::new();
    let ghost mut ahead = full;
    let mut orig_idx: usize = 0;
    let mut mod_idx: usize = 0;
    let mut j: usize = 0;
    assert(cs.skip(0) =~= cs);
    assert(rows_of(result@) + ahead =~= full);
    while j < changes.len()
        invariant
            changes@ == cs,
            ov == views(original@),
            nv == views(modified@),
            ov.len() == original@.len(),
            nv.len() == modified@.len(),
            olen == original@.len(),
            mlen == modified@.len(),
            j <= cs.len(),
            script_from(ov, nv, cs.skip(j as int), orig_idx as int, mod_idx as int),
            ahead == rows_from(ov, nv, cs.skip(j as int), orig_idx as int, mod_idx as int),
            rows_of(result@) + ahead == full,
        decreases cs.len() - j,
    {
        let change = changes[j];
        let ghost rest = cs.skip(j + 1);
        assert(cs.skip(j as int)[0] == change);
        assert(cs.skip(j as int).drop_first() =~= rest);
        let ghost after = rows_from(ov, nv, rest, change.original_end(), change.modified_end());
        let ghost mr = modified_rows(ov, nv, change);
        let ghost rr = removed_rows(ov, change);
        let ghost ar = added_rows(nv, change);
        proof {
            lemma_script_bounds(ov, nv, rest, change.original_end(), change.modified_end());
        }
        let ghost tail = mr + rr + ar + after;
        assert(ahead =~= equal_rows(ov, orig_idx as int, change.original_start - orig_idx) + tail);
        while orig_idx < change.original_start && mod_idx < change.modified_start
            invariant
                ov == views(original@),
                nv == views(modified@),
                ov.len() == original@.len(),
                equal_run(ov, nv, orig_idx as int, mod_idx as int, change.original_start as int, change.modified_start as int),
                ahead == equal_rows(ov, orig_idx as int, change.original_start - orig_idx) + tail,
                rows_of(result@) + ahead == full,
            decreases change.original_start - orig_idx,
        {
            let line = LineDiff::Equal(original[orig_idx].to_string());
            let ghost prev_rows = rows_of(result@);
            proof {
                lemma_equal_run_step(ov, nv, orig_idx as int, mod_idx as int, change.original_start as int, change.modified_start as int);
                let e = equal_rows(ov, orig_idx as int, change.original_start - orig_idx);
                assert(ahead[0] == e[0]);
                lemma_emit(prev_rows, ahead, full, line@);
                assert(ahead.drop_first() =~= equal_rows(ov, orig_idx + 1, change.original_start - (orig_idx + 1)) + tail);
                ahead = ahead.drop_first();
            }
            result.push(line);
            assert(rows_of(result@) =~= prev_rows.push(line@));
            orig_idx = orig_idx + 1;
            mod_idx = mod_idx + 1;
        }
        assert(orig_idx == change.original_start && mod_idx == change.modified_start);
        assert(ahead =~= mr + rr + ar + after);
        let removed = change.original_length;
        let added = change.modified_length;
        let common = if removed < added { removed } else { added };
        let mut i: usize = 0;
        while i < common
            invariant
                ov == views(original@),
                nv == views(modified@),
                ov.len() == original@.len(),
                nv.len() == modified@.len(),
                change.original_end() <= ov.len(),
                change.modified_end() <= nv.len(),
                olen == original@.len(),
                mlen == modified@.len(),
                common == mr.len(),
                mr == modified_rows(ov, nv, change),
                i <= common,
                ahead == mr.skip(i as int) + rr + ar + after,
                rows_of(result@) + ahead == full,
            decreases common - i,
        {
            let line = LineDiff::Modified(
                original[change.original_start + i].to_string(),
                modified[change.modified_start + i].to_string(),
            );
            let ghost prev_rows = rows_of(result@);
            proof {
                assert(ahead[0] == mr[i as int]);
                lemma_emit(prev_rows, ahead, full, line@);
                assert(ahead.drop_first() =~= mr.skip(i + 1) + rr + ar + after);
                ahead = ahead.drop_first();
            }
            result.push(line);
            assert(rows_of(result@) =~= prev_rows.push(line@));
            i = i + 1;
        }
        assert(ahead =~= rr + ar + after);
        let mut i: usize = common;
        while i < removed
            invariant
                ov == views(original@),
                ov.len() == original@.len(),
                change.original_end() <= ov.len(),
                olen == original@.len(),
                removed == change.original_length,
                common <= removed,
                rr == removed_rows(ov, change),
                rr.len() == removed - common,
                common == (if change.original_length < change.modified_length { change.original_length } else { change.modified_length }),
                common <= i <= removed,
                ahead == rr.skip(i - common) + ar + after,
                rows_of(result@) + ahead == full,
            decreases removed - i,
        {
            let line = LineDiff::Removed(original[change.original_start + i].to_string());
            let ghost prev_rows = rows_of(result@);
            proof {
                assert(ahead[0] == rr[i - common]);
                lemma_emit(prev_rows, ahead, full, line@);
                assert(ahead.drop_first() =~= rr.skip(i + 1 - common) + ar + after);
                ahead = ahead.drop_first();
            }
            result.push(line);
            assert(rows_of(result@) =~= prev_rows.push(line@));
            i = i + 1;
        }
        assert(ahead =~= ar + after);
        let mut i: usize = common;
        while i < added
            invariant
                nv == views(modified@),
                nv.len() == modified@.len(),
                change.modified_end() <= nv.len(),
                mlen == modified@.len(),
                added == change.modified_length,
                common <= added,
                ar == added_rows(nv, change),
                ar.len() == added - common,
                common == (if change.original_length < change.modified_length { change.original_length } else { change.modified_length }),
                common <= i <= added,
                ahead == ar.skip(i - common) + after,
                rows_of(result@) + ahead == full,
            decreases added - i,
        {
            let line = LineDiff::Added(modified[change.modified_start + i].to_string());
            let ghost prev_rows = rows_of(result@);
            proof {
                assert(ahead[0] == ar[i - common]);
                lemma_emit(prev_rows, ahead, full, line@);
                assert(ahead.drop_first() =~= ar.skip(i + 1 - common) + after);
                ahead = ahead.drop_first();
            }
            result.push(line);
            assert(rows_of(result@) =~= prev_rows.push(line@));
            i = i + 1;
        }
        assert(ahead =~= after);
        orig_idx = change.original_start + removed;
        mod_idx = change.modified_start + added;
        j = j + 1;
    }
    assert(cs.skip(j as int) =~= Seq::<DiffChange>::empty());
    while orig_idx < original.len() && mod_idx < modified.len()
        invariant
            ov == views(original@),
            nv == views(modified@),
            ov.len() == original@.len(),
            nv.len() == modified@.len(),
            equal_run(ov, nv, orig_idx as int, mod_idx as int, ov.len() as int, nv.len() as int),
            ahead == equal_rows(ov, orig_idx as int, ov.len() - orig_idx),
            rows_of(result@) + ahead == full,
        decreases original@.len() - orig_idx,
    {
        let line = LineDiff::Equal(original[orig_idx].to_string());
        let ghost prev_rows = rows_of(result@);
        proof {
            lemma_equal_run_step(ov, nv, orig_idx as int, mod_idx as int, ov.len() as int, nv.len() as int);
            let e = equal_rows(ov, orig_idx as int, ov.len() - orig_idx);
            assert(ahead[0] == e[0]);
            lemma_emit(prev_rows, ahead, full, line@);
            assert(ahead.drop_first() =~= equal_rows(ov, orig_idx + 1, ov.len() - (orig_idx + 1)));
            ahead = ahead.drop_first();
        }
        result.push(line);
        assert(rows_of(result@) =~= prev_rows.push(line@));
        orig_idx = orig_idx + 1;
        mod_idx = mod_idx + 1;
    }
    assert(rows_of(result@) =~= full);
    proof {
        lemma_line_rows_unchanged(ov, nv, cs);
        lemma_line_rows_modified_differ(ov, nv, cs);
        lemma_line_rows_in_order(ov, nv, cs);
        lemma_rows_sides(ov, nv, cs, 0, 0);
        assert(ov.subrange(0, ov.len() as int) =~= ov);
        assert(nv.subrange(0, nv.len() as int) =~= nv);
    }
    result
}

} // verus!
