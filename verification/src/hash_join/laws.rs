//! What the joins mean: the rows that come out, stated row by row of the probe side.

use crate::hash_join::fill::accepted_before;
use crate::hash_join::fill::anti_bit;
use crate::hash_join::fill::anti_bits;
use crate::hash_join::fill::left_bit;
use crate::hash_join::fill::left_bits;
use crate::hash_join::fill::rejected_before;
use crate::hash_join::fill::semi_bit;
use crate::hash_join::fill::semi_bits;
use crate::hash_join::fill::settled_before;
use crate::hash_join::probe::candidates;
use crate::hash_join::probe::probe_side;
use crate::hash_join::probe::row_candidates;
use crate::hash_join::probe::row_weight;
use crate::hash_join::probe::Candidate;
use crate::hash_join::probe::RowPtr;
use vstd::prelude::*;

verus! {

/// The rows at the set bits, of the first `m`.
pub open spec fn selected<T>(rows: Seq<T>, mask: Seq<bool>, m: int) -> Seq<T>
    decreases m,
{
    if m <= 0 {
        Seq::empty()
    } else if mask[m - 1] {
        selected(rows, mask, m - 1).push(rows[m - 1])
    } else {
        selected(rows, mask, m - 1)
    }
}

/// The position of the first candidate of probe row `i`.
pub open spec fn start(found: Seq<Option<Seq<RowPtr>>>, pad: bool, i: int) -> int {
    candidates(found, pad, i).len() as int
}

/// Whether the predicate accepts one of the candidates from `lo` up to `hi`.
pub open spec fn any_accepted(given: Seq<bool>, lo: int, hi: int) -> bool {
    exists|k: int| lo <= k < hi && #[trigger] given[k]
}

/// The rows of a semi join with a predicate: each probe row that has an accepted candidate, once.
pub open spec fn semi_rows(found: Seq<Option<Seq<RowPtr>>>, given: Seq<bool>, n: int) -> Seq<u32>
    decreases n,
{
    if n <= 0 {
        Seq::empty()
    } else if any_accepted(given, start(found, false, n - 1), start(found, false, n)) {
        semi_rows(found, given, n - 1).push((n - 1) as u32)
    } else {
        semi_rows(found, given, n - 1)
    }
}

/// The rows of an anti join with a predicate: each probe row whose key is not on the build side or
/// none of whose candidates is accepted, once.
pub open spec fn anti_rows(found: Seq<Option<Seq<RowPtr>>>, given: Seq<bool>, n: int) -> Seq<u32>
    decreases n,
{
    if n <= 0 {
        Seq::empty()
    } else if found[n - 1] is None || !any_accepted(
        given,
        start(found, true, n - 1),
        start(found, true, n),
    ) {
        anti_rows(found, given, n - 1).push((n - 1) as u32)
    } else {
        anti_rows(found, given, n - 1)
    }
}

/// A row of a left join: a probe row beside a build row, or beside nulls.
pub struct JoinedRow {
    pub build: Option<RowPtr>,
    pub probe: u32,
}

/// The merged block of a left join: the build side of a candidate is null unless it has a build row
/// and is accepted.
pub open spec fn joined(rows: Seq<Candidate>, given: Seq<bool>) -> Seq<JoinedRow> {
    Seq::new(
        rows.len(),
        |k: int|
            JoinedRow {
                build: if rows[k].matched && given[k] {
                    Some(rows[k].build)
                } else {
                    None
                },
                probe: rows[k].probe,
            },
    )
}

/// The accepted pairs among the candidates from `lo` up to `hi`.
pub open spec fn accepted_pairs(rows: Seq<Candidate>, given: Seq<bool>, lo: int, hi: int) -> Seq<
    JoinedRow,
>
    decreases hi - lo,
{
    if hi <= lo {
        Seq::empty()
    } else if rows[hi - 1].matched && given[hi - 1] {
        accepted_pairs(rows, given, lo, hi - 1).push(
            JoinedRow { build: Some(rows[hi - 1].build), probe: rows[hi - 1].probe },
        )
    } else {
        accepted_pairs(rows, given, lo, hi - 1)
    }
}

/// The rows of a left join with a predicate: for each probe row its accepted pairs, or the probe
/// row beside nulls if there is none.
pub open spec fn left_rows(found: Seq<Option<Seq<RowPtr>>>, given: Seq<bool>, n: int) -> Seq<
    JoinedRow,
>
    decreases n,
{
    if n <= 0 {
        Seq::empty()
    } else {
        let pairs = accepted_pairs(
            candidates(found, true, found.len() as int),
            given,
            start(found, true, n - 1),
            start(found, true, n),
        );
        left_rows(found, given, n - 1) + (if pairs.len() == 0 {
            seq![JoinedRow { build: None, probe: (n - 1) as u32 }]
        } else {
            pairs
        })
    }
}

/// A build table keeps no key without rows.
pub open spec fn no_empty_entry(found: Seq<Option<Seq<RowPtr>>>) -> bool {
    forall|i: int|
        0 <= i < found.len() ==> (#[trigger] found[i] matches Some(rows) ==> rows.len() > 0)
}

/// The rows of a key are counted with 32 bits.
pub open spec fn entries_fit(found: Seq<Option<Seq<RowPtr>>>) -> bool {
    forall|i: int|
        0 <= i < found.len() ==> (#[trigger] found[i] matches Some(rows) ==> rows.len() <= u32::MAX)
}

/// Probe rows are numbered with 32 bits.
pub open spec fn rows_fit(found: Seq<Option<Seq<RowPtr>>>) -> bool {
    found.len() <= u32::MAX + 1
}

/// The candidates of probe row `i` stand together, from `start(i)` up to `start(i + 1)`.
pub proof fn lemma_candidates_at(
    found: Seq<Option<Seq<RowPtr>>>,
    pad: bool,
    i: int,
    n: int,
)
    requires
        0 <= i < n <= found.len(),
    ensures
        0 <= start(found, pad, i) <= start(found, pad, i + 1) <= start(found, pad, n),
        start(found, pad, i + 1) - start(found, pad, i) == row_candidates(found[i], i, pad).len(),
        forall|k: int|
            start(found, pad, i) <= k < start(found, pad, i + 1) ==> #[trigger] candidates(
                found,
                pad,
                n,
            )[k] == row_candidates(found[i], i, pad)[k - start(found, pad, i)],
    decreases n,
{
    if i + 1 < n {
        lemma_candidates_at(found, pad, i, n - 1);
    }
}

/// Before the candidates of probe row `i` stand those of smaller rows.
pub proof fn lemma_earlier_rows(found: Seq<Option<Seq<RowPtr>>>, pad: bool, i: int)
    requires
        0 <= i <= found.len(),
        rows_fit(found),
    ensures
        forall|k: int|
            0 <= k < start(found, pad, i) ==> (#[trigger] candidates(found, pad, i)[k]).probe < i,
    decreases i,
{
    if i > 0 {
        lemma_earlier_rows(found, pad, i - 1);
        assert forall|k: int| 0 <= k < start(found, pad, i) implies (#[trigger] candidates(
            found,
            pad,
            i,
        )[k]).probe < i by {
            if k < start(found, pad, i - 1) {
                assert(candidates(found, pad, i)[k] == candidates(found, pad, i - 1)[k]);
            } else {
                assert(candidates(found, pad, i)[k] == row_candidates(found[i - 1], i - 1, pad)[k
                    - start(found, pad, i - 1)]);
            }
        }
    }
}

/// The candidates of the first rows come first.
proof fn lemma_candidates_prefix(found: Seq<Option<Seq<RowPtr>>>, pad: bool, i: int, n: int)
    requires
        0 <= i <= n <= found.len(),
    ensures
        start(found, pad, i) <= start(found, pad, n),
        forall|k: int|
            0 <= k < start(found, pad, i) ==> #[trigger] candidates(found, pad, n)[k]
                == candidates(found, pad, i)[k],
    decreases n - i,
{
    if i < n {
        lemma_candidates_prefix(found, pad, i, n - 1);
    }
}

/// Which candidates belong to probe row `i`.
pub proof fn lemma_segment(found: Seq<Option<Seq<RowPtr>>>, pad: bool, i: int)
    requires
        0 <= i < found.len(),
        rows_fit(found),
    ensures
        0 <= start(found, pad, i) <= start(found, pad, i + 1) <= start(
            found,
            pad,
            found.len() as int,
        ),
        forall|k: int|
            0 <= k < start(found, pad, i + 1) ==> (#[trigger] probe_side(
                candidates(found, pad, found.len() as int),
            )[k] == i <==> k >= start(found, pad, i)),
{
    let n = found.len() as int;
    lemma_candidates_at(found, pad, i, n);
    lemma_earlier_rows(found, pad, i);
    lemma_candidates_prefix(found, pad, i, n);
    let all = candidates(found, pad, n);
    assert forall|k: int| 0 <= k < start(found, pad, i + 1) implies (#[trigger] probe_side(all)[k]
        == i <==> k >= start(found, pad, i)) by {
        assert(probe_side(all)[k] == all[k].probe);
        if k < start(found, pad, i) {
            assert(all[k] == candidates(found, pad, i)[k]);
        } else {
            assert(all[k] == row_candidates(found[i], i, pad)[k - start(found, pad, i)]);
        }
    }
}

/// Within the candidates of one row, what was accepted or rejected before is what was accepted or
/// rejected since the first of them.
pub proof fn lemma_within_segment(given: Seq<bool>, probe: Seq<u32>, row: int, lo: int, k: int)
    requires
        0 <= lo <= k <= probe.len(),
        probe.len() <= given.len(),
        forall|j: int| 0 <= j < k ==> (#[trigger] probe[j] == row <==> j >= lo),
    ensures
        accepted_before(given, probe, row, k) == any_accepted(given, lo, k),
        rejected_before(given, probe, row, k) <= k - lo,
        rejected_before(given, probe, row, k) == k - lo <==> !any_accepted(given, lo, k),
        rejected_before(given, probe, row, lo) == 0,
    decreases k,
{
    if accepted_before(given, probe, row, k) {
        let j = choose|j: int| 0 <= j < k && #[trigger] probe[j] == row && given[j];
        assert(lo <= j < k && given[j]);
    }
    if any_accepted(given, lo, k) {
        let j = choose|j: int| lo <= j < k && #[trigger] given[j];
        assert(0 <= j < k && probe[j] == row && given[j]);
    }
    if k > lo {
        lemma_within_segment(given, probe, row, lo, k - 1);
        assert(probe[k - 1] == row);
        lemma_any_accepted_step(given, lo, k);
    } else if k > 0 {
        lemma_none_rejected(given, probe, row, k);
    }
}

proof fn lemma_none_rejected(given: Seq<bool>, probe: Seq<u32>, row: int, k: int)
    requires
        0 <= k <= probe.len(),
        forall|j: int| 0 <= j < k ==> #[trigger] probe[j] != row,
    ensures
        rejected_before(given, probe, row, k) == 0,
    decreases k,
{
    if k > 0 {
        lemma_none_rejected(given, probe, row, k - 1);
        assert(probe[k - 1] != row);
    }
}

proof fn lemma_any_accepted_step(given: Seq<bool>, lo: int, hi: int)
    requires
        lo < hi,
    ensures
        any_accepted(given, lo, hi) == (any_accepted(given, lo, hi - 1) || given[hi - 1]),
{
    if any_accepted(given, lo, hi - 1) {
        let j = choose|j: int| lo <= j < hi - 1 && #[trigger] given[j];
        assert(lo <= j < hi && given[j]);
    }
    if given[hi - 1] {
        assert(lo <= hi - 1 < hi && given[hi - 1]);
    }
}

/// A semi join with a predicate, on counters that are all zero, gives each probe row that has an
/// accepted candidate exactly once, in the order of the probe rows.
pub proof fn lemma_semi_join_rows(
    found: Seq<Option<Seq<RowPtr>>>,
    given: Seq<bool>,
    state: Seq<u32>,
    i: int,
)
    requires
        0 <= i <= found.len(),
        rows_fit(found),
        given.len() >= start(found, false, found.len() as int),
        state.len() == found.len(),
        forall|row: int| 0 <= row < state.len() ==> state[row] == 0,
    ensures
        selected(
            probe_side(candidates(found, false, found.len() as int)),
            semi_bits(given, probe_side(candidates(found, false, found.len() as int)), state),
            start(found, false, i),
        ) == semi_rows(found, given, i),
    decreases i,
{
    if i > 0 {
        lemma_semi_join_rows(found, given, state, i - 1);
        lemma_segment(found, false, i - 1);
        lemma_semi_segment(found, given, state, i - 1, start(found, false, i));
    }
}

proof fn lemma_semi_segment(
    found: Seq<Option<Seq<RowPtr>>>,
    given: Seq<bool>,
    state: Seq<u32>,
    row: int,
    k: int,
)
    requires
        0 <= row < found.len(),
        rows_fit(found),
        given.len() >= start(found, false, found.len() as int),
        state.len() == found.len(),
        state[row] == 0,
        start(found, false, row) <= k <= start(found, false, row + 1),
    ensures
        ({
            let probe = probe_side(candidates(found, false, found.len() as int));
            let mask = semi_bits(given, probe, state);
            let lo = start(found, false, row);
            selected(probe, mask, k) == selected(probe, mask, lo) + (if any_accepted(given, lo, k) {
                seq![row as u32]
            } else {
                Seq::empty()
            })
        }),
    decreases k,
{
    let probe = probe_side(candidates(found, false, found.len() as int));
    let mask = semi_bits(given, probe, state);
    let lo = start(found, false, row);
    lemma_segment(found, false, row);
    if k > lo {
        lemma_semi_segment(found, given, state, row, k - 1);
        lemma_within_segment(given, probe, row, lo, k - 1);
        lemma_any_accepted_step(given, lo, k);
        assert(probe[k - 1] == row);
        assert(mask[k - 1] == semi_bit(given, probe, state, k - 1));
    }
    assert(selected(probe, mask, k) =~= selected(probe, mask, lo) + (if any_accepted(
        given,
        lo,
        k,
    ) {
        seq![row as u32]
    } else {
        Seq::empty()
    }));
}

/// The counters with which an anti or a left join starts to filter: the number of candidates with a
/// build row, or `unmatched` for a key that is not on the build side.
pub open spec fn counts_candidates(
    found: Seq<Option<Seq<RowPtr>>>,
    unmatched: u32,
    state: Seq<u32>,
) -> bool {
    &&& state.len() == found.len()
    &&& forall|row: int|
        0 <= row < found.len() ==> #[trigger] state[row] == row_weight(found[row], unmatched)
}

/// An anti join with a predicate, on counters that count the candidates, gives each probe row that
/// has no accepted candidate exactly once, in the order of the probe rows.
pub proof fn lemma_anti_join_rows(
    found: Seq<Option<Seq<RowPtr>>>,
    given: Seq<bool>,
    state: Seq<u32>,
    i: int,
)
    requires
        0 <= i <= found.len(),
        rows_fit(found),
        no_empty_entry(found),
        entries_fit(found),
        given.len() >= start(found, true, found.len() as int),
        counts_candidates(found, 0, state),
    ensures
        selected(
            probe_side(candidates(found, true, found.len() as int)),
            anti_bits(given, probe_side(candidates(found, true, found.len() as int)), state),
            start(found, true, i),
        ) == anti_rows(found, given, i),
    decreases i,
{
    if i > 0 {
        lemma_anti_join_rows(found, given, state, i - 1);
        lemma_segment(found, true, i - 1);
        lemma_anti_segment(found, given, state, i - 1, start(found, true, i));
        lemma_candidates_at(found, true, i - 1, i);
    }
}

proof fn lemma_anti_segment(
    found: Seq<Option<Seq<RowPtr>>>,
    given: Seq<bool>,
    state: Seq<u32>,
    row: int,
    k: int,
)
    requires
        0 <= row < found.len(),
        rows_fit(found),
        no_empty_entry(found),
        entries_fit(found),
        given.len() >= start(found, true, found.len() as int),
        counts_candidates(found, 0, state),
        start(found, true, row) <= k <= start(found, true, row + 1),
    ensures
        ({
            let probe = probe_side(candidates(found, true, found.len() as int));
            let mask = anti_bits(given, probe, state);
            let lo = start(found, true, row);
            let hi = start(found, true, row + 1);
            selected(probe, mask, k) == selected(probe, mask, lo) + (if k == hi && (found[row]
                is None || !any_accepted(given, lo, k)) {
                seq![row as u32]
            } else {
                Seq::empty()
            })
        }),
    decreases k,
{
    let probe = probe_side(candidates(found, true, found.len() as int));
    let mask = anti_bits(given, probe, state);
    let lo = start(found, true, row);
    let hi = start(found, true, row + 1);
    lemma_segment(found, true, row);
    lemma_candidates_at(found, true, row, row + 1);
    assert(found[row] matches Some(rows) ==> rows.len() > 0);
    assert(found[row] matches Some(rows) ==> rows.len() <= u32::MAX);
    let count = state[row];
    assert(count == row_weight(found[row], 0));
    if k > lo {
        lemma_anti_segment(found, given, state, row, k - 1);
        lemma_within_segment(given, probe, row, lo, k - 1);
        lemma_any_accepted_step(given, lo, k);
        assert(probe[k - 1] == row);
        assert(mask[k - 1] == anti_bit(given, probe, state, k - 1));
        if count > 0 {
            assert(count == hi - lo);
            assert(!settled_before(given, probe, row, count, k - 1)) by {
                if settled_before(given, probe, row, count, k - 1) {
                    let j = choose|j: int|
                        0 <= j < k - 1 && #[trigger] probe[j] == row && rejected_before(
                            given,
                            probe,
                            row,
                            j,
                        ) >= count - 1;
                    assert(lo <= j);
                    lemma_within_segment(given, probe, row, lo, j);
                }
            }
        }
    }
    assert(selected(probe, mask, k) =~= selected(probe, mask, lo) + (if k == hi && (found[row]
        is None || !any_accepted(given, lo, k)) {
        seq![row as u32]
    } else {
        Seq::empty()
    }));
}

/// A left join with a predicate, on counters that count the candidates, gives for each probe row
/// its accepted pairs, or the probe row beside nulls if it has none, in the order of the probe
/// rows.
pub proof fn lemma_left_join_rows(
    found: Seq<Option<Seq<RowPtr>>>,
    given: Seq<bool>,
    state: Seq<u32>,
    i: int,
)
    requires
        0 <= i <= found.len(),
        rows_fit(found),
        no_empty_entry(found),
        entries_fit(found),
        given.len() >= start(found, true, found.len() as int),
        counts_candidates(found, 1, state),
    ensures
        selected(
            joined(candidates(found, true, found.len() as int), given),
            left_bits(given, probe_side(candidates(found, true, found.len() as int)), state),
            start(found, true, i),
        ) == left_rows(found, given, i),
    decreases i,
{
    if i > 0 {
        lemma_left_join_rows(found, given, state, i - 1);
        lemma_segment(found, true, i - 1);
        lemma_left_segment(found, given, state, i - 1, start(found, true, i));
        let all = candidates(found, true, found.len() as int);
        assert(selected(
            joined(all, given),
            left_bits(given, probe_side(all), state),
            start(found, true, i),
        ) =~= left_rows(found, given, i));
    }
}

proof fn lemma_left_segment(
    found: Seq<Option<Seq<RowPtr>>>,
    given: Seq<bool>,
    state: Seq<u32>,
    row: int,
    k: int,
)
    requires
        0 <= row < found.len(),
        rows_fit(found),
        no_empty_entry(found),
        entries_fit(found),
        given.len() >= start(found, true, found.len() as int),
        counts_candidates(found, 1, state),
        start(found, true, row) <= k <= start(found, true, row + 1),
    ensures
        ({
            let all = candidates(found, true, found.len() as int);
            let mask = left_bits(given, probe_side(all), state);
            let lo = start(found, true, row);
            let hi = start(found, true, row + 1);
            let pairs = accepted_pairs(all, given, lo, k);
            &&& selected(joined(all, given), mask, k) == selected(joined(all, given), mask, lo) + (
            if k == hi && pairs.len() == 0 {
                seq![JoinedRow { build: None, probe: row as u32 }]
            } else {
                pairs
            })
            &&& found[row] is Some ==> (pairs.len() == 0 <==> !any_accepted(given, lo, k))
        }),
    decreases k,
{
    let all = candidates(found, true, found.len() as int);
    let probe = probe_side(all);
    let mask = left_bits(given, probe, state);
    let lo = start(found, true, row);
    let hi = start(found, true, row + 1);
    lemma_segment(found, true, row);
    lemma_candidates_at(found, true, row, row + 1);
    lemma_candidates_at(found, true, row, found.len() as int);
    assert(found[row] matches Some(rows) ==> rows.len() > 0);
    assert(found[row] matches Some(rows) ==> rows.len() <= u32::MAX);
    assert(state[row] == row_weight(found[row], 1));
    assert(state[row] == hi - lo);
    if k > lo {
        lemma_left_segment(found, given, state, row, k - 1);
        lemma_within_segment(given, probe, row, lo, k - 1);
        lemma_any_accepted_step(given, lo, k);
        assert(probe[k - 1] == row);
        assert(mask[k - 1] == left_bit(given, probe, state, k - 1));
        assert(all[k - 1] == row_candidates(found[row], row, true)[k - 1 - lo]);
        assert(all[k - 1].probe == row as u32);
        assert(all[k - 1].matched == found[row] is Some);
    }
    let pairs = accepted_pairs(all, given, lo, k);
    assert(selected(joined(all, given), mask, k) =~= selected(joined(all, given), mask, lo) + (
    if k == hi && pairs.len() == 0 {
        seq![JoinedRow { build: None, probe: row as u32 }]
    } else {
        pairs
    }));
}

/// A predicate that accepts every row of a left join drops none and nulls none.
pub proof fn lemma_left_join_all_accepted(
    found: Seq<Option<Seq<RowPtr>>>,
    given: Seq<bool>,
    i: int,
)
    requires
        0 <= i <= found.len(),
        no_empty_entry(found),
        given.len() >= start(found, true, found.len() as int),
        forall|k: int| 0 <= k < given.len() ==> given[k],
    ensures
        start(found, true, i) <= start(found, true, found.len() as int),
        joined(candidates(found, true, found.len() as int), given).take(start(found, true, i))
            == left_rows(found, given, i),
    decreases i,
{
    let n = found.len() as int;
    let all = candidates(found, true, n);
    lemma_candidates_prefix(found, true, i, n);
    if i > 0 {
        let lo = start(found, true, i - 1);
        let hi = start(found, true, i);
        lemma_left_join_all_accepted(found, given, i - 1);
        lemma_candidates_at(found, true, i - 1, n);
        assert(found[i - 1] matches Some(rows) ==> rows.len() > 0);
        assert forall|k: int| lo <= k < hi implies (#[trigger] all[k]).probe == (i - 1) as u32
            && all[k].matched == found[i - 1] is Some by {
            assert(all[k] == row_candidates(found[i - 1], i - 1, true)[k - lo]);
        }
        if found[i - 1] is Some {
            lemma_pairs_all_accepted(all, given, lo, hi);
        } else {
            assert(hi == lo + 1);
            assert(all[lo].matched == false);
            assert(accepted_pairs(all, given, lo, lo) =~= Seq::<JoinedRow>::empty());
            assert(accepted_pairs(all, given, lo, hi) =~= Seq::<JoinedRow>::empty());
        }
    }
    assert(joined(all, given).take(start(found, true, i)) =~= left_rows(found, given, i));
}

proof fn lemma_pairs_all_accepted(rows: Seq<Candidate>, given: Seq<bool>, lo: int, hi: int)
    requires
        0 <= lo <= hi <= rows.len(),
        rows.len() <= given.len(),
        forall|k: int| lo <= k < hi ==> (#[trigger] rows[k]).matched && given[k],
    ensures
        accepted_pairs(rows, given, lo, hi) == joined(rows, given).subrange(lo, hi),
    decreases hi,
{
    if hi > lo {
        lemma_pairs_all_accepted(rows, given, lo, hi - 1);
        assert(rows[hi - 1].matched && given[hi - 1]);
    }
    assert(accepted_pairs(rows, given, lo, hi) =~= joined(rows, given).subrange(lo, hi));
}

/// A semi join has no row if there is no candidate.
pub proof fn lemma_semi_join_no_candidates(
    found: Seq<Option<Seq<RowPtr>>>,
    given: Seq<bool>,
    i: int,
)
    requires
        0 <= i <= found.len(),
        start(found, false, found.len() as int) == 0,
    ensures
        semi_rows(found, given, i) == Seq::<u32>::empty(),
    decreases i,
{
    lemma_candidates_prefix(found, false, i, found.len() as int);
    if i > 0 {
        lemma_candidates_prefix(found, false, i - 1, found.len() as int);
        lemma_semi_join_no_candidates(found, given, i - 1);
    }
}

} // verus!
