//! How the joins relate to each other: a left join to an inner and an anti join, and the joins with
//! one predicate to those with a weaker one.

use crate::bitmap::bits;
use crate::hash_join::fill::accepted_before;
use crate::hash_join::fill::anti_bit;
use crate::hash_join::fill::anti_bits;
use crate::hash_join::fill::rejected_before;
use crate::hash_join::fill::semi_bit;
use crate::hash_join::fill::semi_bits;
use crate::hash_join::fill::settled_before;
use crate::hash_join::laws::accepted_pairs;
use crate::hash_join::laws::anti_rows;
use crate::hash_join::laws::any_accepted;
use crate::hash_join::laws::entries_fit;
use crate::hash_join::laws::joined;
use crate::hash_join::laws::left_rows;
use crate::hash_join::laws::lemma_candidates_at;
use crate::hash_join::laws::lemma_left_join_all_accepted;
use crate::hash_join::laws::no_empty_entry;
use crate::hash_join::laws::rows_fit;
use crate::hash_join::laws::selected;
use crate::hash_join::laws::semi_rows;
use crate::hash_join::laws::start;
use crate::hash_join::laws::JoinedRow;
use crate::hash_join::probe::build_side;
use crate::hash_join::probe::candidates;
use crate::hash_join::probe::probe_side;
use crate::hash_join::probe::row_candidates;
use crate::hash_join::probe::rows_where;
use crate::hash_join::probe::weighed;
use crate::hash_join::probe::Candidate;
use crate::hash_join::probe::ProbeState;
use crate::hash_join::probe::RowPtr;
use crate::hash_join::result_blocks::all_set;
use crate::hash_join::result_blocks::answers;
use crate::hash_join::result_blocks::probe_outcome;
use crate::hash_join::result_blocks::resume_outcome;
use crate::hash_join::result_blocks::verdicts;
use crate::hash_join::result_blocks::ColumnNulls;
use crate::hash_join::result_blocks::JoinEvent;
use crate::hash_join::result_blocks::JoinHashTable;
use crate::hash_join::result_blocks::JoinStep;
use crate::hash_join::result_blocks::PredicateColumn;
use crate::hash_join::theorems::accepting_predicate_keeps_anti_join;
use crate::hash_join::theorems::accepting_predicate_keeps_semi_join;
use crate::hash_join::theorems::anti_join_with_predicate;
use crate::hash_join::theorems::anti_join_without_candidates;
use crate::hash_join::theorems::columns_shown;
use crate::hash_join::theorems::left_join_with_predicate;
use crate::hash_join::theorems::left_join_without_predicate;
use crate::hash_join::theorems::semi_join_with_predicate;
use crate::hash_join::theorems::semi_join_without_candidates;
use vstd::prelude::*;

verus! {

/// The rows of an inner join with a predicate: the accepted pairs of a probe row and a build row of
/// its key.
pub open spec fn inner_rows(found: Seq<Option<Seq<RowPtr>>>, given: Seq<bool>, n: int) -> Seq<
    JoinedRow,
> {
    accepted_pairs(
        candidates(found, false, found.len() as int),
        given,
        0,
        start(found, false, n),
    )
}

/// The build rows `build_indexs` beside the input rows `probe_indexs`.
pub open spec fn merged_rows(state: ProbeState) -> Seq<JoinedRow> {
    Seq::new(
        state.probe_indexs@.len(),
        |k: int|
            JoinedRow { build: Some(state.build_indexs@[k]), probe: state.probe_indexs@[k] },
    )
}

/// An inner join gives its accepted pairs: the merged block filtered by the verdicts of the
/// predicate, or the whole merged block if there is no predicate.
pub proof fn inner_join_gives_accepted_pairs(
    table: JoinHashTable,
    found: Seq<Option<Seq<RowPtr>>>,
    before: ProbeState,
    after: ProbeState,
    step: JoinStep,
    given: Seq<bool>,
)
    requires
        table.join_type is Inner,
        before.is_cleared(),
        probe_outcome(table, found, before, after, step),
        given.len() == after.probe_indexs@.len(),
        !table.has_other_predicate ==> all_set(given),
    ensures
        step is MergeThenFilter <==> table.has_other_predicate,
        step is Merge <==> !table.has_other_predicate,
        selected(merged_rows(after), given, given.len() as int) == inner_rows(
            found,
            given,
            found.len() as int,
        ),
        step is Merge ==> merged_rows(after) == inner_rows(found, given, found.len() as int),
{
    let n = found.len() as int;
    let all = candidates(found, false, n);
    assert(after.build_indexs@ =~= build_side(all));
    assert(after.probe_indexs@ =~= probe_side(all));
    lemma_all_matched(found, n);
    lemma_selected_pairs(all, after, given, all.len() as int);
    if step is Merge {
        lemma_selected_all(merged_rows(after), given, given.len() as int);
        assert(merged_rows(after).take(given.len() as int) =~= merged_rows(after));
    }
}

proof fn lemma_all_matched(found: Seq<Option<Seq<RowPtr>>>, n: int)
    requires
        0 <= n <= found.len(),
    ensures
        forall|k: int|
            0 <= k < start(found, false, n) ==> (#[trigger] candidates(found, false, n)[k]).matched,
    decreases n,
{
    if n > 0 {
        lemma_all_matched(found, n - 1);
        assert forall|k: int| 0 <= k < start(found, false, n) implies (#[trigger] candidates(
            found,
            false,
            n,
        )[k]).matched by {
            if k < start(found, false, n - 1) {
                assert(candidates(found, false, n)[k] == candidates(found, false, n - 1)[k]);
            } else {
                let added = row_candidates(found[n - 1], n - 1, false);
                assert(candidates(found, false, n)[k] == added[k - start(found, false, n - 1)]);
            }
        }
    }
}

proof fn lemma_selected_pairs(rows: Seq<Candidate>, state: ProbeState, given: Seq<bool>, m: int)
    requires
        0 <= m <= rows.len(),
        state.build_indexs@ == build_side(rows),
        state.probe_indexs@ == probe_side(rows),
        forall|k: int| 0 <= k < rows.len() ==> (#[trigger] rows[k]).matched,
    ensures
        selected(merged_rows(state), given, m) == accepted_pairs(rows, given, 0, m),
    decreases m,
{
    if m > 0 {
        lemma_selected_pairs(rows, state, given, m - 1);
        assert(rows[m - 1].matched);
        assert(merged_rows(state)[m - 1] == JoinedRow {
            build: Some(rows[m - 1].build),
            probe: rows[m - 1].probe,
        });
    }
}

proof fn lemma_selected_all<T>(rows: Seq<T>, mask: Seq<bool>, m: int)
    requires
        0 <= m <= rows.len(),
        m <= mask.len(),
        all_set(mask),
    ensures
        selected(rows, mask, m) == rows.take(m),
    decreases m,
{
    if m > 0 {
        lemma_selected_all(rows, mask, m - 1);
    }
    assert(selected(rows, mask, m) =~= rows.take(m));
}

/// The verdicts are those of a predicate on pairs of a build row and a probe row. Of a placeholder
/// they can say anything.
pub open spec fn are_verdicts_of(
    given: Seq<bool>,
    rows: Seq<Candidate>,
    predicate: spec_fn(RowPtr, u32) -> bool,
) -> bool {
    &&& given.len() >= rows.len()
    &&& forall|k: int|
        0 <= k < rows.len() && (#[trigger] rows[k]).matched ==> given[k] == predicate(
            rows[k].build,
            rows[k].probe,
        )
}

/// Probe rows beside nulls.
pub open spec fn beside_nulls(rows: Seq<u32>) -> Seq<JoinedRow> {
    rows.map_values(|row: u32| JoinedRow { build: None, probe: row })
}

/// A left join is an inner join plus an anti join: its rows with a build row are those of the inner
/// join, its rows beside nulls are those of the anti join, each in the same order, and together
/// they are all its rows. They come in the order of the probe rows, as long as these can be
/// numbered.
pub proof fn left_join_is_inner_plus_anti_join(
    found: Seq<Option<Seq<RowPtr>>>,
    predicate: spec_fn(RowPtr, u32) -> bool,
    left: Seq<bool>,
    inner: Seq<bool>,
    anti: Seq<bool>,
    n: int,
)
    requires
        0 <= n <= found.len(),
        are_verdicts_of(left, candidates(found, true, found.len() as int), predicate),
        are_verdicts_of(inner, candidates(found, false, found.len() as int), predicate),
        are_verdicts_of(anti, candidates(found, true, found.len() as int), predicate),
    ensures
        left_rows(found, left, n).filter(|r: JoinedRow| r.build is Some) == inner_rows(
            found,
            inner,
            n,
        ),
        left_rows(found, left, n).filter(|r: JoinedRow| r.build is None) == beside_nulls(
            anti_rows(found, anti, n),
        ),
        left_rows(found, left, n).to_multiset() == inner_rows(found, inner, n).to_multiset().add(
            beside_nulls(anti_rows(found, anti, n)).to_multiset(),
        ),
        rows_fit(found) ==> forall|k: int, l: int|
            0 <= k <= l < left_rows(found, left, n).len() ==> #[trigger] left_rows(
                found,
                left,
                n,
            )[k].probe <= #[trigger] left_rows(found, left, n)[l].probe,
        rows_fit(found) ==> forall|k: int|
            0 <= k < left_rows(found, left, n).len() ==> #[trigger] left_rows(
                found,
                left,
                n,
            )[k].probe < n,
    decreases n,
{
    let some = |r: JoinedRow| r.build is Some;
    let none = |r: JoinedRow| r.build is None;
    let before = left_rows(found, left, n - 1);
    let after = left_rows(found, left, n);
    if n > 0 {
        left_join_is_inner_plus_anti_join(found, predicate, left, inner, anti, n - 1);
        let m = found.len() as int;
        let padded = candidates(found, true, m);
        let plain = candidates(found, false, m);
        let lo = start(found, true, n - 1);
        let hi = start(found, true, n);
        let pairs = accepted_pairs(padded, left, lo, hi);
        let added = if pairs.len() == 0 {
            seq![JoinedRow { build: None, probe: (n - 1) as u32 }]
        } else {
            pairs
        };
        assert(after == before + added);
        lemma_row_of_left_join(found, predicate, left, inner, anti, n - 1);
        lemma_pairs_join(plain, inner, 0, start(found, false, n - 1), start(found, false, n));
        Seq::filter_distributes_over_add(before, added, some);
        Seq::filter_distributes_over_add(before, added, none);
        vstd::seq_lib::lemma_multiset_commutative(before, added);
        if pairs.len() == 0 {
            added.lemma_all_neg_filter_empty(some);
            lemma_filter_all(added, none);
            assert(anti_rows(found, anti, n) == anti_rows(found, anti, n - 1).push((n - 1) as u32));
            assert(beside_nulls(anti_rows(found, anti, n)) =~= beside_nulls(
                anti_rows(found, anti, n - 1),
            ) + added);
            assert(inner_rows(found, inner, n) =~= inner_rows(found, inner, n - 1));
            vstd::seq_lib::lemma_multiset_commutative(
                beside_nulls(anti_rows(found, anti, n - 1)),
                added,
            );
        } else {
            lemma_filter_all(added, some);
            added.lemma_all_neg_filter_empty(none);
            assert(added.filter(none) =~= Seq::<JoinedRow>::empty());
            vstd::seq_lib::lemma_multiset_commutative(inner_rows(found, inner, n - 1), added);
            assert(inner_rows(found, inner, n) =~= inner_rows(found, inner, n - 1) + added);
        }
        assert(after.to_multiset() =~= inner_rows(found, inner, n).to_multiset().add(
            beside_nulls(anti_rows(found, anti, n)).to_multiset(),
        ));
        if rows_fit(found) {
            assert forall|k: int| 0 <= k < after.len() implies #[trigger] after[k].probe < n && (k
                >= before.len() ==> after[k].probe == n - 1) by {
                if k < before.len() {
                    assert(after[k] == before[k]);
                } else {
                    assert(after[k] == added[k - before.len()]);
                }
            }
            assert forall|k: int, l: int|
                0 <= k <= l < after.len() implies #[trigger] after[k].probe
                <= #[trigger] after[l].probe by {
                if l < before.len() {
                    assert(after[k] == before[k] && after[l] == before[l]);
                }
            }
        }
    } else {
        assert(after =~= Seq::<JoinedRow>::empty());
        assert(inner_rows(found, inner, n) =~= Seq::<JoinedRow>::empty());
        assert(beside_nulls(anti_rows(found, anti, n)) =~= Seq::<JoinedRow>::empty());
        assert(after.to_multiset() =~= inner_rows(found, inner, n).to_multiset().add(
            beside_nulls(anti_rows(found, anti, n)).to_multiset(),
        )) by {
            broadcast use vstd::seq_lib::group_to_multiset_ensures;

        }
    }
}

/// A left join keeps every probe row.
pub proof fn left_join_keeps_every_probe_row(
    found: Seq<Option<Seq<RowPtr>>>,
    given: Seq<bool>,
    n: int,
    i: int,
)
    requires
        0 <= i < n <= found.len(),
    ensures
        exists|k: int|
            0 <= k < left_rows(found, given, n).len() && (#[trigger] left_rows(
                found,
                given,
                n,
            )[k]).probe == i as u32,
    decreases n,
{
    let all = candidates(found, true, found.len() as int);
    let lo = start(found, true, n - 1);
    let hi = start(found, true, n);
    let pairs = accepted_pairs(all, given, lo, hi);
    let before = left_rows(found, given, n - 1);
    let after = left_rows(found, given, n);
    if i < n - 1 {
        left_join_keeps_every_probe_row(found, given, n - 1, i);
        let k = choose|k: int| 0 <= k < before.len() && (#[trigger] before[k]).probe == i as u32;
        assert(after[k] == before[k]);
    } else {
        if pairs.len() > 0 {
            lemma_candidates_at(found, true, i, found.len() as int);
            assert forall|k: int|
                lo <= k < hi && (#[trigger] all[k]).matched implies all[k].probe == i as u32 by {
                assert(all[k] == row_candidates(found[i], i, true)[k - lo]);
            }
            lemma_pairs_of_row(all, given, lo, hi, i as u32);
            assert(pairs[0].probe == i as u32);
        }
        assert(after[before.len() as int].probe == i as u32);
    }
}

/// What one probe row contributes to the three joins.
proof fn lemma_row_of_left_join(
    found: Seq<Option<Seq<RowPtr>>>,
    predicate: spec_fn(RowPtr, u32) -> bool,
    left: Seq<bool>,
    inner: Seq<bool>,
    anti: Seq<bool>,
    i: int,
)
    requires
        0 <= i < found.len(),
        are_verdicts_of(left, candidates(found, true, found.len() as int), predicate),
        are_verdicts_of(inner, candidates(found, false, found.len() as int), predicate),
        are_verdicts_of(anti, candidates(found, true, found.len() as int), predicate),
    ensures
        ({
            let m = found.len() as int;
            let lo = start(found, true, i);
            let hi = start(found, true, i + 1);
            let pairs = accepted_pairs(candidates(found, true, m), left, lo, hi);
            &&& 0 <= start(found, false, i) <= start(found, false, i + 1)
            &&& pairs == accepted_pairs(
                candidates(found, false, m),
                inner,
                start(found, false, i),
                start(found, false, i + 1),
            )
            &&& pairs.len() == 0 <==> found[i] is None || !any_accepted(anti, lo, hi)
            &&& forall|k: int|
                0 <= k < pairs.len() ==> (#[trigger] pairs[k]).probe == i as u32
                    && pairs[k].build is Some
        }),
{
    let m = found.len() as int;
    let padded = candidates(found, true, m);
    let plain = candidates(found, false, m);
    let lo = start(found, true, i);
    let hi = start(found, true, i + 1);
    let from = start(found, false, i);
    let to = start(found, false, i + 1);
    lemma_candidates_at(found, true, i, m);
    lemma_candidates_at(found, false, i, m);
    if found[i] is Some {
        assert forall|k: int| lo <= k < hi implies {
            &&& #[trigger] padded[k] == plain[k - lo + from]
            &&& padded[k].matched
            &&& padded[k].probe == i as u32
            &&& left[k] == inner[k - lo + from]
            &&& left[k] == anti[k]
        } by {
            assert(padded[k] == row_candidates(found[i], i, true)[k - lo]);
            assert(plain[k - lo + from] == row_candidates(found[i], i, false)[k - lo]);
        }
        lemma_same_pairs(padded, left, lo, plain, inner, from, hi - lo);
        lemma_no_pairs(padded, left, lo, hi);
        assert(any_accepted(left, lo, hi) == any_accepted(anti, lo, hi)) by {
            if any_accepted(left, lo, hi) {
                let k = choose|k: int| lo <= k < hi && #[trigger] left[k];
                assert(padded[k].matched);
                assert(anti[k]);
            }
            if any_accepted(anti, lo, hi) {
                let k = choose|k: int| lo <= k < hi && #[trigger] anti[k];
                assert(padded[k].matched);
                assert(left[k]);
            }
        }
    } else {
        assert(padded[lo] == row_candidates(found[i], i, true)[0]);
        assert(hi == lo + 1 && to == from);
        assert(accepted_pairs(padded, left, lo, lo) =~= Seq::<JoinedRow>::empty());
        assert(accepted_pairs(padded, left, lo, hi) =~= Seq::<JoinedRow>::empty());
        assert(accepted_pairs(plain, inner, from, to) =~= Seq::<JoinedRow>::empty());
    }
    lemma_pairs_of_row(padded, left, lo, hi, i as u32);
}

proof fn lemma_pairs_of_row(rows: Seq<Candidate>, given: Seq<bool>, lo: int, hi: int, probe: u32)
    requires
        forall|k: int| lo <= k < hi && (#[trigger] rows[k]).matched ==> rows[k].probe == probe,
    ensures
        forall|k: int|
            0 <= k < accepted_pairs(rows, given, lo, hi).len() ==> {
                let pair = #[trigger] accepted_pairs(rows, given, lo, hi)[k];
                pair.probe == probe && pair.build is Some
            },
    decreases hi - lo,
{
    if lo < hi {
        lemma_pairs_of_row(rows, given, lo, hi - 1, probe);
        assert(rows[hi - 1].matched ==> rows[hi - 1].probe == probe);
    }
}

proof fn lemma_same_pairs(
    a: Seq<Candidate>,
    given: Seq<bool>,
    lo: int,
    b: Seq<Candidate>,
    other: Seq<bool>,
    from: int,
    len: int,
)
    requires
        0 <= len,
        forall|k: int|
            lo <= k < lo + len ==> #[trigger] a[k] == b[k - lo + from] && given[k] == other[k - lo
                + from],
    ensures
        accepted_pairs(a, given, lo, lo + len) == accepted_pairs(b, other, from, from + len),
    decreases len,
{
    if len > 0 {
        lemma_same_pairs(a, given, lo, b, other, from, len - 1);
        assert(a[lo + len - 1] == b[from + len - 1]);
    }
}

proof fn lemma_no_pairs(rows: Seq<Candidate>, given: Seq<bool>, lo: int, hi: int)
    requires
        forall|k: int| lo <= k < hi ==> (#[trigger] rows[k]).matched,
    ensures
        accepted_pairs(rows, given, lo, hi).len() == 0 <==> !any_accepted(given, lo, hi),
    decreases hi - lo,
{
    if lo < hi {
        lemma_no_pairs(rows, given, lo, hi - 1);
        assert(rows[hi - 1].matched);
        if any_accepted(given, lo, hi - 1) {
            let k = choose|k: int| lo <= k < hi - 1 && #[trigger] given[k];
            assert(lo <= k < hi && given[k]);
        }
        if given[hi - 1] {
            assert(lo <= hi - 1 < hi && given[hi - 1]);
        }
    }
}

proof fn lemma_pairs_join(rows: Seq<Candidate>, given: Seq<bool>, lo: int, mid: int, hi: int)
    requires
        lo <= mid <= hi,
    ensures
        accepted_pairs(rows, given, lo, hi) == accepted_pairs(rows, given, lo, mid)
            + accepted_pairs(rows, given, mid, hi),
    decreases hi - mid,
{
    if mid < hi {
        lemma_pairs_join(rows, given, lo, mid, hi - 1);
    }
    assert(accepted_pairs(rows, given, lo, hi) =~= accepted_pairs(rows, given, lo, mid)
        + accepted_pairs(rows, given, mid, hi));
}

proof fn lemma_filter_all<T>(rows: Seq<T>, pred: spec_fn(T) -> bool)
    requires
        forall|k: int| 0 <= k < rows.len() ==> pred(#[trigger] rows[k]),
    ensures
        rows.filter(pred) == rows,
    decreases rows.len(),
{
    reveal(Seq::filter);
    if rows.len() > 0 {
        assert(pred(rows[rows.len() - 1]));
        assert forall|k: int| 0 <= k < rows.drop_last().len() implies pred(
            #[trigger] rows.drop_last()[k],
        ) by {
            assert(pred(rows[k]));
        }
        lemma_filter_all(rows.drop_last(), pred);
        assert(rows.filter(pred) =~= rows);
    }
}

/// Every verdict that accepts one of the first `len` candidates is also given by `weaker`.
pub open spec fn is_weaker(weaker: Seq<bool>, given: Seq<bool>, len: int) -> bool {
    forall|k: int| 0 <= k < len && #[trigger] given[k] ==> weaker[k]
}

/// A weaker predicate gives a semi join more rows.
pub proof fn weaker_predicate_gives_more_semi_rows(
    found: Seq<Option<Seq<RowPtr>>>,
    given: Seq<bool>,
    weaker: Seq<bool>,
    n: int,
)
    requires
        0 <= n <= found.len(),
        is_weaker(weaker, given, start(found, false, n)),
    ensures
        forall|row: u32| #[trigger]
            semi_rows(found, given, n).contains(row) ==> semi_rows(found, weaker, n).contains(row),
    decreases n,
{
    if n > 0 {
        lemma_candidates_at(found, false, n - 1, n);
        weaker_predicate_gives_more_semi_rows(found, given, weaker, n - 1);
        lemma_weaker_accepts(
            given,
            weaker,
            start(found, false, n - 1),
            start(found, false, n),
            start(found, false, n),
        );
        lemma_grown(semi_rows(found, given, n - 1), semi_rows(found, given, n), (n - 1) as u32);
        lemma_grown(semi_rows(found, weaker, n - 1), semi_rows(found, weaker, n), (n - 1) as u32);
    }
}

/// A weaker predicate gives an anti join fewer rows.
pub proof fn weaker_predicate_gives_fewer_anti_rows(
    found: Seq<Option<Seq<RowPtr>>>,
    given: Seq<bool>,
    weaker: Seq<bool>,
    n: int,
)
    requires
        0 <= n <= found.len(),
        is_weaker(weaker, given, start(found, true, n)),
    ensures
        forall|row: u32| #[trigger]
            anti_rows(found, weaker, n).contains(row) ==> anti_rows(found, given, n).contains(row),
    decreases n,
{
    if n > 0 {
        lemma_candidates_at(found, true, n - 1, n);
        weaker_predicate_gives_fewer_anti_rows(found, given, weaker, n - 1);
        lemma_weaker_accepts(
            given,
            weaker,
            start(found, true, n - 1),
            start(found, true, n),
            start(found, true, n),
        );
        lemma_grown(anti_rows(found, given, n - 1), anti_rows(found, given, n), (n - 1) as u32);
        lemma_grown(anti_rows(found, weaker, n - 1), anti_rows(found, weaker, n), (n - 1) as u32);
    }
}

proof fn lemma_weaker_accepts(given: Seq<bool>, weaker: Seq<bool>, lo: int, hi: int, len: int)
    requires
        0 <= lo,
        hi <= len,
        is_weaker(weaker, given, len),
    ensures
        any_accepted(given, lo, hi) ==> any_accepted(weaker, lo, hi),
{
    if any_accepted(given, lo, hi) {
        let k = choose|k: int| lo <= k < hi && #[trigger] given[k];
        assert(lo <= k < hi && weaker[k]);
    }
}

/// What a sequence contains that has grown by one row, or not at all.
proof fn lemma_grown(before: Seq<u32>, after: Seq<u32>, row: u32)
    requires
        after == before || after == before.push(row),
    ensures
        forall|r: u32| #[trigger]
            after.contains(r) <==> before.contains(r) || (after.len() > before.len() && r == row),
{
    assert forall|r: u32| #[trigger]
        after.contains(r) <==> before.contains(r) || (after.len() > before.len() && r == row) by {
        if before.contains(r) {
            let k = choose|k: int| 0 <= k < before.len() && before[k] == r;
            assert(after[k] == r);
        }
        if after.len() > before.len() {
            assert(after[before.len() as int] == row);
        }
        if after.contains(r) {
            let k = choose|k: int| 0 <= k < after.len() && after[k] == r;
            if k < before.len() {
                assert(before[k] == r);
            }
        }
    }
}

/// A semi join and an anti join with one predicate split the probe rows: each row is in exactly one
/// of the two results.
pub proof fn semi_anti_join_split_rows_by_predicate(
    found: Seq<Option<Seq<RowPtr>>>,
    predicate: spec_fn(RowPtr, u32) -> bool,
    semi: Seq<bool>,
    anti: Seq<bool>,
    n: int,
)
    requires
        0 <= n <= found.len(),
        rows_fit(found),
        are_verdicts_of(semi, candidates(found, false, found.len() as int), predicate),
        are_verdicts_of(anti, candidates(found, true, found.len() as int), predicate),
    ensures
        forall|row: u32|
            row < n ==> (#[trigger] semi_rows(found, semi, n).contains(row) <==> !anti_rows(
                found,
                anti,
                n,
            ).contains(row)),
        forall|row: u32| #[trigger] semi_rows(found, semi, n).contains(row) ==> row < n,
        forall|row: u32| #[trigger] anti_rows(found, anti, n).contains(row) ==> row < n,
    decreases n,
{
    if n > 0 {
        let i = n - 1;
        let plain = candidates(found, false, found.len() as int);
        let from = start(found, false, i);
        let to = start(found, false, n);
        semi_anti_join_split_rows_by_predicate(found, predicate, semi, anti, i);
        lemma_row_of_left_join(found, predicate, anti, semi, anti, i);
        lemma_candidates_at(found, false, i, found.len() as int);
        assert forall|k: int| from <= k < to implies (#[trigger] plain[k]).matched by {
            assert(plain[k] == row_candidates(found[i], i, false)[k - from]);
        }
        lemma_no_pairs(plain, semi, from, to);
        lemma_grown(semi_rows(found, semi, i), semi_rows(found, semi, n), i as u32);
        lemma_grown(anti_rows(found, anti, i), anti_rows(found, anti, n), i as u32);
    }
}

/// A semi or an anti join of one probe block on a cleared state. Where the predicate has to be
/// evaluated (`step`), the engine answers with `column` on `num_rows` rows, which leads to `next`.
pub struct SemiAntiRun {
    pub table: JoinHashTable,
    pub before: ProbeState,
    pub probed: ProbeState,
    pub step: JoinStep,
    pub column: PredicateColumn,
    pub num_rows: usize,
    pub after: ProbeState,
    pub next: JoinStep,
}

impl SemiAntiRun {
    /// The run goes as the contracts of probing and resuming say.
    pub open spec fn is_run(self, found: Seq<Option<Seq<RowPtr>>>) -> bool {
        let event = JoinEvent::Predicate { column: self.column, num_rows: self.num_rows };
        &&& self.table.join_type is Semi || self.table.join_type is Anti
        &&& self.before.is_cleared()
        &&& probe_outcome(self.table, found, self.before, self.probed, self.step)
        &&& self.is_evaluated() ==> {
            &&& answers(self.step, event, self.probed)
            &&& resume_outcome(self.step, event, self.probed, self.after, self.next)
        }
    }

    /// The predicate has to be evaluated.
    pub open spec fn is_evaluated(self) -> bool {
        self.step is EvaluatePredicate
    }

    /// The verdicts of the predicate, if it has to be evaluated.
    pub open spec fn given(self) -> Seq<bool> {
        verdicts(self.column, self.num_rows as nat)
    }

    /// The input rows of the result.
    pub open spec fn rows(self) -> Seq<u32> {
        if self.is_evaluated() {
            selected(
                self.after.probe_indexs@,
                bits(self.next->TakeProbeFiltered_0),
                self.after.probe_indexs@.len() as int,
            )
        } else {
            self.probed.probe_indexs@
        }
    }
}

/// The rows of a semi join, whether or not its predicate has to be evaluated.
proof fn lemma_semi_run(run: SemiAntiRun, found: Seq<Option<Seq<RowPtr>>>, given: Seq<bool>)
    requires
        run.table.join_type is Semi,
        run.table.has_other_predicate,
        rows_fit(found),
        run.is_run(found),
        run.is_evaluated() ==> given == run.given(),
    ensures
        run.rows() == semi_rows(found, given, found.len() as int),
{
    if run.is_evaluated() {
        semi_join_with_predicate(
            run.table,
            found,
            run.before,
            run.probed,
            run.step,
            run.column,
            run.num_rows,
            run.after,
            run.next,
        );
    } else {
        semi_join_without_candidates(
            run.table,
            found,
            run.before,
            run.probed,
            run.step,
            given,
        );
    }
}

/// The rows of an anti join, whether or not its predicate has to be evaluated.
proof fn lemma_anti_run(run: SemiAntiRun, found: Seq<Option<Seq<RowPtr>>>, given: Seq<bool>)
    requires
        run.table.join_type is Anti,
        run.table.has_other_predicate,
        rows_fit(found),
        no_empty_entry(found),
        entries_fit(found),
        run.is_run(found),
        run.is_evaluated() ==> given == run.given(),
    ensures
        run.rows() == anti_rows(found, given, found.len() as int),
{
    if run.is_evaluated() {
        anti_join_with_predicate(
            run.table,
            found,
            run.before,
            run.probed,
            run.step,
            run.column,
            run.num_rows,
            run.after,
            run.next,
        );
    } else {
        anti_join_without_candidates(
            run.table,
            found,
            run.before,
            run.probed,
            run.step,
            given,
        );
    }
}

/// What is selected stands at a set bit.
proof fn lemma_selected_contains<T>(rows: Seq<T>, mask: Seq<bool>, m: int, row: T)
    requires
        0 <= m <= rows.len(),
    ensures
        selected(rows, mask, m).contains(row) <==> exists|k: int|
            0 <= k < m && #[trigger] rows[k] == row && mask[k],
    decreases m,
{
    if m > 0 {
        let before = selected(rows, mask, m - 1);
        let after = selected(rows, mask, m);
        lemma_selected_contains(rows, mask, m - 1, row);
        if before.contains(row) {
            let k = choose|k: int| 0 <= k < before.len() && before[k] == row;
            assert(after[k] == row);
            let l = choose|l: int| 0 <= l < m - 1 && #[trigger] rows[l] == row && mask[l];
            assert(0 <= l < m && rows[l] == row && mask[l]);
        }
        if mask[m - 1] && rows[m - 1] == row {
            assert(after[before.len() as int] == row);
        }
        if after.contains(row) && !before.contains(row) {
            let k = choose|k: int| 0 <= k < after.len() && after[k] == row;
            if k < before.len() {
                assert(before[k] == row);
            }
            assert(0 <= m - 1 < m && rows[m - 1] == row && mask[m - 1]);
        }
    }
}

/// A row with an accepted candidate has a first one.
pub proof fn lemma_first_accepted(given: Seq<bool>, probe: Seq<u32>, row: int, k: int) -> (j: int)
    requires
        0 <= k < probe.len(),
        probe[k] == row,
        given[k],
    ensures
        0 <= j <= k,
        probe[j] == row,
        given[j],
        !accepted_before(given, probe, row, j),
    decreases k,
{
    if accepted_before(given, probe, row, k) {
        let earlier = choose|i: int| 0 <= i < k && #[trigger] probe[i] == row && given[i];
        lemma_first_accepted(given, probe, row, earlier)
    } else {
        k
    }
}

/// A weaker predicate rejects no candidate more.
proof fn lemma_weaker_rejects(
    given: Seq<bool>,
    weaker: Seq<bool>,
    probe: Seq<u32>,
    row: int,
    k: int,
)
    requires
        0 <= k <= probe.len(),
        is_weaker(weaker, given, probe.len() as int),
    ensures
        rejected_before(weaker, probe, row, k) <= rejected_before(given, probe, row, k),
    decreases k,
{
    if k > 0 {
        lemma_weaker_rejects(given, weaker, probe, row, k - 1);
        assert(given[k - 1] ==> weaker[k - 1]);
    }
}

/// Whatever the counters, a candidate that an anti join keeps with a weaker predicate is kept.
proof fn lemma_weaker_anti_bit(
    given: Seq<bool>,
    weaker: Seq<bool>,
    probe: Seq<u32>,
    state: Seq<u32>,
    k: int,
)
    requires
        0 <= k < probe.len(),
        is_weaker(weaker, given, probe.len() as int),
        anti_bit(weaker, probe, state, k),
    ensures
        anti_bit(given, probe, state, k),
{
    let row = probe[k] as int;
    let count = state[row];
    if settled_before(weaker, probe, row, count, k) {
        let j = choose|j: int|
            0 <= j < k && #[trigger] probe[j] == row && rejected_before(weaker, probe, row, j)
                >= count - 1;
        lemma_weaker_rejects(given, weaker, probe, row, j);
        assert(settled_before(given, probe, row, count, k));
    } else {
        lemma_weaker_rejects(given, weaker, probe, row, k);
        assert(given[k] ==> weaker[k]);
    }
}

/// Of two semi joins that differ in their predicates, the one with the weaker predicate returns
/// every input row that the other returns.
pub proof fn semi_join_grows_with_its_predicate(
    run: SemiAntiRun,
    weaker: SemiAntiRun,
    found: Seq<Option<Seq<RowPtr>>>,
)
    requires
        run.table.join_type is Semi,
        run.table.has_other_predicate,
        weaker.table == run.table,
        run.is_run(found),
        weaker.is_run(found),
        run.is_evaluated() ==> is_weaker(
            weaker.given(),
            run.given(),
            run.probed.probe_indexs@.len() as int,
        ),
    ensures
        forall|row: u32| #[trigger] run.rows().contains(row) ==> weaker.rows().contains(row),
{
    let probe = probe_side(candidates(found, false, found.len() as int));
    let m = probe.len() as int;
    assert(run.probed.probe_indexs@ =~= probe);
    assert(weaker.probed.probe_indexs@ =~= probe);
    if run.is_evaluated() {
        let state = run.probed.row_state@;
        let mask = semi_bits(run.given(), probe, state);
        let weaker_mask = semi_bits(weaker.given(), probe, weaker.probed.row_state@);
        assert forall|row: u32| #[trigger] run.rows().contains(row) implies weaker.rows().contains(
            row,
        ) by {
            lemma_selected_contains(probe, mask, m, row);
            lemma_selected_contains(probe, weaker_mask, m, row);
            let k = choose|k: int| 0 <= k < m && #[trigger] probe[k] == row && mask[k];
            assert(run.given()[k]);
            let j = lemma_first_accepted(weaker.given(), probe, row as int, k);
            assert(weaker_mask[j] == semi_bit(
                weaker.given(),
                probe,
                weaker.probed.row_state@,
                j,
            ));
            assert(0 <= j < m && probe[j] == row && weaker_mask[j]);
        }
    }
}

/// Of two anti joins that differ in their predicates, the one with the weaker predicate returns no
/// input row that the other does not return.
pub proof fn anti_join_shrinks_with_its_predicate(
    run: SemiAntiRun,
    weaker: SemiAntiRun,
    found: Seq<Option<Seq<RowPtr>>>,
)
    requires
        run.table.join_type is Anti,
        run.table.has_other_predicate,
        weaker.table == run.table,
        run.is_run(found),
        weaker.is_run(found),
        run.is_evaluated() ==> is_weaker(
            weaker.given(),
            run.given(),
            run.probed.probe_indexs@.len() as int,
        ),
    ensures
        forall|row: u32| #[trigger] weaker.rows().contains(row) ==> run.rows().contains(row),
{
    let probe = probe_side(candidates(found, true, found.len() as int));
    let m = probe.len() as int;
    assert(run.probed.probe_indexs@ =~= probe);
    assert(weaker.probed.probe_indexs@ =~= probe);
    if run.is_evaluated() {
        let state = run.probed.row_state@;
        lemma_same_counters(run, weaker, found);
        let mask = anti_bits(run.given(), probe, state);
        let weaker_mask = anti_bits(weaker.given(), probe, state);
        assert forall|row: u32| #[trigger] weaker.rows().contains(row) implies run.rows().contains(
            row,
        ) by {
            lemma_selected_contains(probe, mask, m, row);
            lemma_selected_contains(probe, weaker_mask, m, row);
            let k = choose|k: int| 0 <= k < m && #[trigger] probe[k] == row && weaker_mask[k];
            lemma_weaker_anti_bit(run.given(), weaker.given(), probe, state, k);
            assert(0 <= k < m && probe[k] == row && mask[k]);
        }
    }
}

/// Two anti joins with a predicate count the same.
proof fn lemma_same_counters(a: SemiAntiRun, b: SemiAntiRun, found: Seq<Option<Seq<RowPtr>>>)
    requires
        a.table.join_type is Anti,
        a.table.has_other_predicate,
        b.table == a.table,
        a.is_run(found),
        b.is_run(found),
    ensures
        a.probed.row_state@ == b.probed.row_state@,
{
    let n = found.len() as int;
    let from_a = weighed(a.before.row_state@, found, 0, n);
    let from_b = weighed(b.before.row_state@, found, 0, n);
    assert(a.before.row_state@ =~= b.before.row_state@);
    assert forall|row: int| 0 <= row < n implies a.probed.row_state@[row]
        == b.probed.row_state@[row] by {
        assert(a.probed.row_state@[row] == from_a[row]);
        assert(b.probed.row_state@[row] == from_b[row]);
    }
    assert(a.probed.row_state@ =~= b.probed.row_state@);
}

/// A semi or an anti join whose predicate accepts every candidate returns what it returns without
/// the predicate.
pub proof fn accepting_predicate_changes_no_result(
    run: SemiAntiRun,
    plain: SemiAntiRun,
    found: Seq<Option<Seq<RowPtr>>>,
)
    requires
        run.table.has_other_predicate,
        !plain.table.has_other_predicate,
        plain.table.join_type == run.table.join_type,
        rows_fit(found),
        no_empty_entry(found),
        run.table.join_type is Anti ==> entries_fit(found),
        run.is_run(found),
        plain.is_run(found),
        run.is_evaluated() ==> all_set(run.given()),
    ensures
        run.rows() == plain.rows(),
{
    let n = found.len() as int;
    let pad = run.table.join_type is Anti;
    let given = if run.is_evaluated() {
        run.given()
    } else {
        Seq::new(start(found, pad, n) as nat, |k: int| true)
    };
    assert(run.probed.probe_indexs@ =~= probe_side(candidates(found, pad, n)));
    assert(plain.rows() =~= rows_where(found, !pad, n));
    if pad {
        lemma_anti_run(run, found, given);
        accepting_predicate_keeps_anti_join(found, given, n);
    } else {
        lemma_semi_run(run, found, given);
        accepting_predicate_keeps_semi_join(found, given, n);
    }
}

/// An inner join of one probe block on a cleared state. `given` is what the predicate says of the
/// rows of the merged block, if there is a predicate.
pub struct InnerRun {
    pub table: JoinHashTable,
    pub before: ProbeState,
    pub after: ProbeState,
    pub step: JoinStep,
    pub given: Seq<bool>,
}

impl InnerRun {
    /// The run goes as the contract of probing says.
    pub open spec fn is_run(self, found: Seq<Option<Seq<RowPtr>>>) -> bool {
        &&& self.table.join_type is Inner
        &&& self.before.is_cleared()
        &&& probe_outcome(self.table, found, self.before, self.after, self.step)
        &&& self.given.len() == self.after.probe_indexs@.len()
    }

    /// The rows of the result.
    pub open spec fn rows(self) -> Seq<JoinedRow> {
        if self.step is MergeThenFilter {
            selected(merged_rows(self.after), self.given, self.given.len() as int)
        } else {
            merged_rows(self.after)
        }
    }
}

/// A left join of one probe block on a cleared state. The gathered build block has `columns`; where
/// there is a predicate (`second`), the engine answers with `column` on `num_rows` rows.
pub struct LeftRun {
    pub table: JoinHashTable,
    pub before: ProbeState,
    pub probed: ProbeState,
    pub first: JoinStep,
    pub columns: Vec<ColumnNulls>,
    pub gathered: ProbeState,
    pub second: JoinStep,
    pub column: PredicateColumn,
    pub num_rows: usize,
    pub after: ProbeState,
    pub third: JoinStep,
}

impl LeftRun {
    /// The run goes as the contracts of probing and resuming say.
    pub open spec fn is_run(self, found: Seq<Option<Seq<RowPtr>>>) -> bool {
        let gathers = JoinEvent::BuildColumns(self.columns);
        let evaluates = JoinEvent::Predicate { column: self.column, num_rows: self.num_rows };
        &&& self.table.join_type is Left
        &&& self.before.is_cleared()
        &&& probe_outcome(self.table, found, self.before, self.probed, self.first)
        &&& answers(self.first, gathers, self.probed)
        &&& resume_outcome(self.first, gathers, self.probed, self.gathered, self.second)
        &&& self.table.has_other_predicate ==> {
            &&& answers(self.second, evaluates, self.gathered)
            &&& resume_outcome(self.second, evaluates, self.gathered, self.after, self.third)
        }
    }

    /// The state at the end.
    pub open spec fn end(self) -> ProbeState {
        if self.table.has_other_predicate {
            self.after
        } else {
            self.gathered
        }
    }

    /// The step that gives the result.
    pub open spec fn last(self) -> JoinStep {
        if self.table.has_other_predicate {
            self.third
        } else {
            self.second
        }
    }

    /// What the predicate says of the rows of the merged block; without a predicate every row is
    /// accepted.
    pub open spec fn given(self) -> Seq<bool> {
        if self.table.has_other_predicate {
            verdicts(self.column, self.num_rows as nat)
        } else {
            Seq::new(self.end().probe_indexs@.len(), |k: int| true)
        }
    }

    /// The merged block of the last step: the build side of a row is null unless the row has a
    /// build row and is accepted.
    pub open spec fn merged(self) -> Seq<JoinedRow> {
        Seq::new(
            self.end().probe_indexs@.len(),
            |k: int|
                JoinedRow {
                    build: if bits(self.first->GatherBuild_validity)[k] && self.given()[k] {
                        Some(self.end().build_indexs@[k])
                    } else {
                        None
                    },
                    probe: self.end().probe_indexs@[k],
                },
        )
    }

    /// The last step gives the build columns of the merged block the nulls that its rows say.
    pub open spec fn shows_merged(self) -> bool {
        match self.last() {
            JoinStep::MergeNullable(nulls) => columns_shown(
                nulls@,
                self.columns@,
                self.merged(),
            ),
            JoinStep::MergeNullableFiltered(nulls, bitmap) => columns_shown(
                nulls@,
                self.columns@,
                self.merged(),
            ),
            _ => false,
        }
    }

    /// The rows of the result.
    pub open spec fn rows(self) -> Seq<JoinedRow> {
        match self.last() {
            JoinStep::MergeNullableFiltered(nulls, bitmap) => selected(
                self.merged(),
                bits(bitmap),
                self.merged().len() as int,
            ),
            _ => self.merged(),
        }
    }
}

/// The rows of a left join, with or without a predicate.
proof fn lemma_left_run(run: LeftRun, found: Seq<Option<Seq<RowPtr>>>)
    requires
        rows_fit(found),
        no_empty_entry(found),
        entries_fit(found),
        run.is_run(found),
    ensures
        run.rows() == left_rows(found, run.given(), found.len() as int),
        run.shows_merged(),
{
    let n = found.len() as int;
    let all = candidates(found, true, n);
    assert(run.end().build_indexs@ =~= build_side(all));
    assert(run.end().probe_indexs@ =~= probe_side(all));
    assert(run.merged() =~= joined(all, run.given()));
    if run.table.has_other_predicate {
        left_join_with_predicate(
            run.table,
            found,
            run.before,
            run.probed,
            run.first,
            run.columns,
            run.gathered,
            run.second,
            run.column,
            run.num_rows,
            run.after,
            run.third,
        );
    } else {
        left_join_without_predicate(
            run.table,
            found,
            run.before,
            run.probed,
            run.first,
            run.columns,
            run.gathered,
            run.second,
            run.given(),
        );
        lemma_left_join_all_accepted(found, run.given(), n);
        assert(run.merged().take(all.len() as int) =~= run.merged());
    }
}

/// A left, an inner and an anti join of the same block, which differ in their type only: the result
/// of the left join is that of the inner join plus that of the anti join beside nulls, in the order
/// of the probe rows.
pub proof fn left_result_is_inner_plus_anti_result(
    found: Seq<Option<Seq<RowPtr>>>,
    predicate: spec_fn(RowPtr, u32) -> bool,
    left: LeftRun,
    inner: InnerRun,
    anti: SemiAntiRun,
)
    requires
        rows_fit(found),
        no_empty_entry(found),
        entries_fit(found),
        left.is_run(found),
        inner.is_run(found),
        anti.is_run(found),
        anti.table.join_type is Anti,
        left.table.has_other_predicate == inner.table.has_other_predicate,
        left.table.has_other_predicate == anti.table.has_other_predicate,
        left.table.has_other_predicate ==> {
            let padded = candidates(found, true, found.len() as int);
            let plain = candidates(found, false, found.len() as int);
            &&& are_verdicts_of(left.given(), padded, predicate)
            &&& are_verdicts_of(inner.given, plain, predicate)
            &&& anti.is_evaluated() ==> are_verdicts_of(anti.given(), padded, predicate)
        },
    ensures
        left.shows_merged(),
        left.rows().filter(|r: JoinedRow| r.build is Some) == inner.rows(),
        left.rows().filter(|r: JoinedRow| r.build is None) == beside_nulls(anti.rows()),
        left.rows().to_multiset() == inner.rows().to_multiset().add(
            beside_nulls(anti.rows()).to_multiset(),
        ),
        forall|k: int, l: int|
            0 <= k <= l < left.rows().len() ==> #[trigger] left.rows()[k].probe
                <= #[trigger] left.rows()[l].probe,
{
    let n = found.len() as int;
    let padded = candidates(found, true, n);
    let plain = candidates(found, false, n);
    let h = left.table.has_other_predicate;
    let p = if h {
        predicate
    } else {
        |build: RowPtr, probe: u32| true
    };
    let of_inner = if h {
        inner.given
    } else {
        Seq::new(plain.len(), |k: int| true)
    };
    let of_anti = if anti.is_evaluated() {
        anti.given()
    } else {
        Seq::new(padded.len(), |k: int| p(padded[k].build, padded[k].probe))
    };
    assert(left.end().probe_indexs@ =~= probe_side(padded));
    assert(inner.after.probe_indexs@ =~= probe_side(plain));
    lemma_left_run(left, found);
    inner_join_gives_accepted_pairs(
        inner.table,
        found,
        inner.before,
        inner.after,
        inner.step,
        of_inner,
    );
    if h {
        lemma_anti_run(anti, found, of_anti);
    } else {
        assert(anti.rows() =~= rows_where(found, false, n));
        accepting_predicate_keeps_anti_join(found, of_anti, n);
    }
    left_join_is_inner_plus_anti_join(found, p, left.given(), of_inner, of_anti, n);
}

} // verus!
