//! What comes out of a join from its first step to its last, on a cleared probe state.

use crate::bitmap::bits;
use crate::hash_join::fill::fits;
use crate::hash_join::laws::anti_rows;
use crate::hash_join::laws::any_accepted;
use crate::hash_join::laws::counts_candidates;
use crate::hash_join::laws::entries_fit;
use crate::hash_join::laws::joined;
use crate::hash_join::laws::left_rows;
use crate::hash_join::laws::lemma_anti_join_rows;
use crate::hash_join::laws::lemma_candidates_at;
use crate::hash_join::laws::lemma_earlier_rows;
use crate::hash_join::laws::lemma_left_join_all_accepted;
use crate::hash_join::laws::lemma_left_join_rows;
use crate::hash_join::laws::lemma_semi_join_no_candidates;
use crate::hash_join::laws::lemma_semi_join_rows;
use crate::hash_join::laws::no_empty_entry;
use crate::hash_join::laws::rows_fit;
use crate::hash_join::laws::selected;
use crate::hash_join::laws::semi_rows;
use crate::hash_join::laws::start;
use crate::hash_join::laws::JoinedRow;
use crate::hash_join::probe::build_side;
use crate::hash_join::probe::candidates;
use crate::hash_join::probe::matched_side;
use crate::hash_join::probe::probe_side;
use crate::hash_join::probe::row_candidates;
use crate::hash_join::probe::row_weight;
use crate::hash_join::probe::rows_where;
use crate::hash_join::probe::weighed;
use crate::hash_join::probe::ProbeState;
use crate::hash_join::probe::RowPtr;
use crate::hash_join::result_blocks::all_set;
use crate::hash_join::result_blocks::answers;
use crate::hash_join::result_blocks::counted;
use crate::hash_join::result_blocks::probe_outcome;
use crate::hash_join::result_blocks::resume_outcome;
use crate::hash_join::result_blocks::verdicts;
use crate::hash_join::result_blocks::with_validity;
use crate::hash_join::result_blocks::ColumnNulls;
use crate::hash_join::result_blocks::ColumnNullsView;
use crate::hash_join::result_blocks::JoinEvent;
use crate::hash_join::result_blocks::JoinHashTable;
use crate::hash_join::result_blocks::JoinStep;
use crate::hash_join::result_blocks::PredicateColumn;
use vstd::prelude::*;

verus! {

/// A semi join and an anti join without a predicate split the probe rows: each row is in exactly
/// one of the two results, once, and both results are in the order of the probe rows.
pub proof fn semi_anti_join_split_rows(found: Seq<Option<Seq<RowPtr>>>, present: bool, n: int)
    requires
        0 <= n <= found.len(),
        rows_fit(found),
    ensures
        forall|i: int|
            0 <= i < n ==> (rows_where(found, present, n).contains(i as u32)
                <==> #[trigger] found[i] is Some == present),
        forall|k: int|
            0 <= k < rows_where(found, present, n).len() ==> #[trigger] rows_where(
                found,
                present,
                n,
            )[k] < n,
        forall|k: int, l: int|
            0 <= k < l < rows_where(found, present, n).len() ==> #[trigger] rows_where(
                found,
                present,
                n,
            )[k] < #[trigger] rows_where(found, present, n)[l],
    decreases n,
{
    if n > 0 {
        semi_anti_join_split_rows(found, present, n - 1);
        let before = rows_where(found, present, n - 1);
        let after = rows_where(found, present, n);
        assert forall|i: int| 0 <= i < n implies (after.contains(i as u32) <==> #[trigger] found[i]
            is Some == present) by {
            if i < n - 1 {
                if before.contains(i as u32) {
                    let k = choose|k: int| 0 <= k < before.len() && before[k] == i as u32;
                    assert(after[k] == i as u32);
                }
                if after.contains(i as u32) {
                    let k = choose|k: int| 0 <= k < after.len() && after[k] == i as u32;
                    assert(k < before.len());
                    assert(before[k] == i as u32);
                }
            } else {
                if after.len() > before.len() {
                    assert(after[before.len() as int] == i as u32);
                }
                if after.contains(i as u32) {
                    let k = choose|k: int| 0 <= k < after.len() && after[k] == i as u32;
                    if k < before.len() {
                        assert(before[k] < n - 1);
                    }
                }
            }
        }
    }
}

/// An inner join gives every pair of a probe row and a build row of its key, and nothing else.
pub proof fn inner_join_gives_all_pairs(
    table: JoinHashTable,
    found: Seq<Option<Seq<RowPtr>>>,
    before: ProbeState,
    after: ProbeState,
    step: JoinStep,
)
    requires
        table.join_type is Inner,
        before.is_cleared(),
        rows_fit(found),
        probe_outcome(table, found, before, after, step),
    ensures
        after.build_indexs@.len() == after.probe_indexs@.len(),
        after.probe_indexs@.len() == start(found, false, found.len() as int),
        forall|i: int, j: int|
            #![trigger found[i], start(found, false, i) + j]
            0 <= i < found.len() && found[i] is Some && 0 <= j < found[i]->0.len() ==> {
                let k = start(found, false, i) + j;
                &&& 0 <= k < after.probe_indexs@.len()
                &&& after.probe_indexs@[k] == i
                &&& after.build_indexs@[k] == found[i]->0[j]
            },
        forall|k: int|
            0 <= k < after.probe_indexs@.len() ==> {
                let i = #[trigger] after.probe_indexs@[k] as int;
                &&& 0 <= i < found.len()
                &&& found[i] is Some
                &&& 0 <= k - start(found, false, i) < found[i]->0.len()
            },
{
    let n = found.len() as int;
    let all = candidates(found, false, n);
    assert(after.build_indexs@ =~= build_side(all));
    assert(after.probe_indexs@ =~= probe_side(all));
    assert forall|i: int, j: int|
        #![trigger found[i], start(found, false, i) + j]
        0 <= i < found.len() && found[i] is Some && 0 <= j < found[i]->0.len() implies {
        let k = start(found, false, i) + j;
        &&& 0 <= k < after.probe_indexs@.len()
        &&& after.probe_indexs@[k] == i
        &&& after.build_indexs@[k] == found[i]->0[j]
    } by {
        let k = start(found, false, i) + j;
        lemma_candidates_at(found, false, i, n);
        assert(all[k] == row_candidates(found[i], i, false)[j]);
    }
    assert forall|k: int| 0 <= k < after.probe_indexs@.len() implies {
        let i = #[trigger] after.probe_indexs@[k] as int;
        &&& 0 <= i < found.len()
        &&& found[i] is Some
        &&& 0 <= k - start(found, false, i) < found[i]->0.len()
    } by {
        lemma_candidate_origin(found, n, k);
    }
}

proof fn lemma_candidate_origin(found: Seq<Option<Seq<RowPtr>>>, n: int, k: int)
    requires
        0 <= n <= found.len(),
        rows_fit(found),
        0 <= k < start(found, false, n),
    ensures
        ({
            let i = candidates(found, false, n)[k].probe as int;
            &&& 0 <= i < n
            &&& found[i] is Some
            &&& 0 <= k - start(found, false, i) < found[i]->0.len()
        }),
    decreases n,
{
    if n > 0 {
        if k < start(found, false, n - 1) {
            lemma_candidate_origin(found, n - 1, k);
            assert(candidates(found, false, n)[k] == candidates(found, false, n - 1)[k]);
        } else {
            assert(candidates(found, false, n)[k] == row_candidates(found[n - 1], n - 1, false)[k
                - start(found, false, n - 1)]);
        }
    }
}

/// A semi join with a predicate that ends after probing has no row, whatever the predicate would
/// say.
pub proof fn semi_join_without_candidates(
    table: JoinHashTable,
    found: Seq<Option<Seq<RowPtr>>>,
    before: ProbeState,
    after: ProbeState,
    step: JoinStep,
    given: Seq<bool>,
)
    requires
        table.join_type is Semi,
        table.has_other_predicate,
        before.is_cleared(),
        probe_outcome(table, found, before, after, step),
        step is TakeProbe,
    ensures
        after.probe_indexs@ == semi_rows(found, given, found.len() as int),
{
    assert(after.probe_indexs@ =~= probe_side(candidates(found, false, found.len() as int)));
    lemma_semi_join_no_candidates(found, given, found.len() as int);
}

/// A semi join with a predicate gives each probe row that has an accepted candidate exactly once.
pub proof fn semi_join_with_predicate(
    table: JoinHashTable,
    found: Seq<Option<Seq<RowPtr>>>,
    before: ProbeState,
    probed: ProbeState,
    step: JoinStep,
    column: PredicateColumn,
    num_rows: usize,
    after: ProbeState,
    next: JoinStep,
)
    requires
        table.join_type is Semi,
        table.has_other_predicate,
        before.is_cleared(),
        rows_fit(found),
        probe_outcome(table, found, before, probed, step),
        step is EvaluatePredicate,
        answers(step, JoinEvent::Predicate { column, num_rows }, probed),
        resume_outcome(step, JoinEvent::Predicate { column, num_rows }, probed, after, next),
    ensures
        next matches JoinStep::TakeProbeFiltered(bitmap) && selected(
            after.probe_indexs@,
            bits(bitmap),
            after.probe_indexs@.len() as int,
        ) == semi_rows(found, verdicts(column, num_rows as nat), found.len() as int),
{
    let given = verdicts(column, num_rows as nat);
    assert(probed.probe_indexs@ =~= probe_side(candidates(found, false, found.len() as int)));
    lemma_semi_join_rows(found, given, probed.row_state@, found.len() as int);
}

/// An anti join with a predicate that ends after probing has every probe row, once: no key is on
/// the build side.
pub proof fn anti_join_without_candidates(
    table: JoinHashTable,
    found: Seq<Option<Seq<RowPtr>>>,
    before: ProbeState,
    after: ProbeState,
    step: JoinStep,
    given: Seq<bool>,
)
    requires
        table.join_type is Anti,
        table.has_other_predicate,
        before.is_cleared(),
        no_empty_entry(found),
        probe_outcome(table, found, before, after, step),
        step is TakeProbe,
    ensures
        after.probe_indexs@ == anti_rows(found, given, found.len() as int),
        after.probe_indexs@.len() == found.len(),
{
    let n = found.len() as int;
    assert(after.probe_indexs@ =~= probe_side(candidates(found, true, n)));
    lemma_only_placeholders(found, n);
    lemma_all_unmatched(found, given, n);
}

proof fn lemma_only_placeholders(found: Seq<Option<Seq<RowPtr>>>, n: int)
    requires
        0 <= n <= found.len(),
        no_empty_entry(found),
    ensures
        start(found, true, n) >= rows_where(found, false, n).len(),
        start(found, true, n) == rows_where(found, false, n).len() ==> forall|i: int|
            0 <= i < n ==> #[trigger] found[i] is None,
    decreases n,
{
    if n > 0 {
        lemma_only_placeholders(found, n - 1);
        assert(found[n - 1] matches Some(rows) ==> rows.len() > 0);
    }
}

proof fn lemma_all_unmatched(found: Seq<Option<Seq<RowPtr>>>, given: Seq<bool>, n: int)
    requires
        0 <= n <= found.len(),
        forall|i: int| 0 <= i < n ==> #[trigger] found[i] is None,
    ensures
        probe_side(candidates(found, true, n)) == anti_rows(found, given, n),
        anti_rows(found, given, n).len() == n,
    decreases n,
{
    if n > 0 {
        lemma_all_unmatched(found, given, n - 1);
        assert(found[n - 1] is None);
    }
    assert(probe_side(candidates(found, true, n)) =~= anti_rows(found, given, n));
}

/// Counting from nothing counts the candidates.
proof fn lemma_counted_from_nothing(
    found: Seq<Option<Seq<RowPtr>>>,
    before: ProbeState,
    after: ProbeState,
    unmatched: u32,
)
    requires
        before.is_cleared(),
        counted(before, after, found, unmatched),
    ensures
        counts_candidates(found, unmatched, after.row_state@),
{
    assert forall|row: int| 0 <= row < found.len() implies #[trigger] after.row_state@[row]
        == row_weight(found[row], unmatched) by {
        assert(after.row_state@[row] == weighed(
            before.row_state@,
            found,
            unmatched,
            found.len() as int,
        )[row]);
    }
}

/// An anti join with a predicate gives each probe row that has no accepted candidate exactly once.
pub proof fn anti_join_with_predicate(
    table: JoinHashTable,
    found: Seq<Option<Seq<RowPtr>>>,
    before: ProbeState,
    probed: ProbeState,
    step: JoinStep,
    column: PredicateColumn,
    num_rows: usize,
    after: ProbeState,
    next: JoinStep,
)
    requires
        table.join_type is Anti,
        table.has_other_predicate,
        before.is_cleared(),
        rows_fit(found),
        no_empty_entry(found),
        entries_fit(found),
        probe_outcome(table, found, before, probed, step),
        step is EvaluatePredicate,
        answers(step, JoinEvent::Predicate { column, num_rows }, probed),
        resume_outcome(step, JoinEvent::Predicate { column, num_rows }, probed, after, next),
    ensures
        next matches JoinStep::TakeProbeFiltered(bitmap) && selected(
            after.probe_indexs@,
            bits(bitmap),
            after.probe_indexs@.len() as int,
        ) == anti_rows(found, verdicts(column, num_rows as nat), found.len() as int),
{
    let given = verdicts(column, num_rows as nat);
    assert(probed.probe_indexs@ =~= probe_side(candidates(found, true, found.len() as int)));
    lemma_counted_from_nothing(found, before, probed, 0);
    lemma_anti_join_rows(found, given, probed.row_state@, found.len() as int);
}

/// The nulls of a build column beside the rows of a left join: its own, and every row without a
/// build row.
pub open spec fn shown(column: ColumnNullsView, rows: Seq<JoinedRow>) -> ColumnNullsView {
    match column {
        ColumnNullsView::Null => ColumnNullsView::Null,
        ColumnNullsView::Nullable(own) => ColumnNullsView::Nullable(
            Seq::new(rows.len(), |k: int| own[k] && rows[k].build is Some),
        ),
        ColumnNullsView::Required => ColumnNullsView::Nullable(
            Seq::new(rows.len(), |k: int| rows[k].build is Some),
        ),
    }
}

/// [`shown`] for each column.
pub open spec fn columns_shown(
    after: Seq<ColumnNulls>,
    before: Seq<ColumnNulls>,
    rows: Seq<JoinedRow>,
) -> bool {
    &&& after.len() == before.len()
    &&& forall|i: int|
        0 <= i < before.len() ==> (#[trigger] after[i])@ == shown(before[i]@, rows)
}

/// A left join without a predicate gives each probe row beside every build row of its key, or once
/// beside nulls if its key is not on the build side.
pub proof fn left_join_without_predicate(
    table: JoinHashTable,
    found: Seq<Option<Seq<RowPtr>>>,
    before: ProbeState,
    probed: ProbeState,
    step: JoinStep,
    columns: Vec<ColumnNulls>,
    after: ProbeState,
    next: JoinStep,
    given: Seq<bool>,
)
    requires
        table.join_type is Left,
        !table.has_other_predicate,
        before.is_cleared(),
        no_empty_entry(found),
        probe_outcome(table, found, before, probed, step),
        answers(step, JoinEvent::BuildColumns(columns), probed),
        resume_outcome(step, JoinEvent::BuildColumns(columns), probed, after, next),
        given.len() == after.probe_indexs@.len(),
        all_set(given),
    ensures
        ({
            let rows = left_rows(found, given, found.len() as int);
            &&& after.probe_indexs@ == rows.map_values(|r: JoinedRow| r.probe)
            &&& after.build_indexs@.len() == rows.len()
            &&& forall|k: int|
                0 <= k < rows.len() ==> ((#[trigger] rows[k]).build matches Some(build)
                    ==> after.build_indexs@[k] == build)
            &&& next matches JoinStep::MergeNullable(nulls) && columns_shown(
                nulls@,
                columns@,
                rows,
            )
        }),
{
    let all = candidates(found, true, found.len() as int);
    let rows = joined(all, given);
    assert(after.build_indexs@ =~= build_side(all));
    assert(after.probe_indexs@ =~= probe_side(all));
    lemma_left_join_all_accepted(found, given, found.len() as int);
    assert(rows.take(all.len() as int) =~= rows);
    assert(after.probe_indexs@ =~= rows.map_values(|r: JoinedRow| r.probe));
    if let JoinStep::MergeNullable(nulls) = next {
        assert forall|i: int| 0 <= i < columns@.len() implies (#[trigger] nulls@[i])@ == shown(
            columns@[i]@,
            rows,
        ) by {
            assert(nulls@[i]@ == with_validity(columns@[i]@, matched_side(all)));
            assert(with_validity(columns@[i]@, matched_side(all)) =~= shown(columns@[i]@, rows));
        }
    }
}

/// A left join with a predicate gives for each probe row its accepted pairs, or once the probe row
/// beside nulls if no pair of it is accepted.
pub proof fn left_join_with_predicate(
    table: JoinHashTable,
    found: Seq<Option<Seq<RowPtr>>>,
    before: ProbeState,
    probed: ProbeState,
    step: JoinStep,
    columns: Vec<ColumnNulls>,
    gathered: ProbeState,
    evaluate: JoinStep,
    column: PredicateColumn,
    num_rows: usize,
    after: ProbeState,
    next: JoinStep,
)
    requires
        table.join_type is Left,
        table.has_other_predicate,
        before.is_cleared(),
        rows_fit(found),
        no_empty_entry(found),
        entries_fit(found),
        probe_outcome(table, found, before, probed, step),
        answers(step, JoinEvent::BuildColumns(columns), probed),
        resume_outcome(step, JoinEvent::BuildColumns(columns), probed, gathered, evaluate),
        answers(evaluate, JoinEvent::Predicate { column, num_rows }, gathered),
        resume_outcome(
            evaluate,
            JoinEvent::Predicate { column, num_rows },
            gathered,
            after,
            next,
        ),
    ensures
        ({
            let given = verdicts(column, num_rows as nat);
            let n = found.len() as int;
            let merged = joined(candidates(found, true, n), given);
            &&& after.probe_indexs@ == merged.map_values(|r: JoinedRow| r.probe)
            &&& after.build_indexs@.len() == merged.len()
            &&& forall|k: int|
                0 <= k < merged.len() ==> ((#[trigger] merged[k]).build matches Some(build)
                    ==> after.build_indexs@[k] == build)
            &&& match next {
                JoinStep::MergeNullable(nulls) => {
                    &&& merged == left_rows(found, given, n)
                    &&& columns_shown(nulls@, columns@, merged)
                },
                JoinStep::MergeNullableFiltered(nulls, bitmap) => {
                    &&& selected(merged, bits(bitmap), merged.len() as int) == left_rows(
                        found,
                        given,
                        n,
                    )
                    &&& columns_shown(nulls@, columns@, merged)
                },
                _ => false,
            }
        }),
{
    let given = verdicts(column, num_rows as nat);
    let n = found.len() as int;
    let all = candidates(found, true, n);
    let merged = joined(all, given);
    assert(after.build_indexs@ =~= build_side(all));
    assert(after.probe_indexs@ =~= probe_side(all));
    assert(after.probe_indexs@ =~= merged.map_values(|r: JoinedRow| r.probe));
    lemma_counted_from_nothing(found, before, probed, 1);
    if let JoinStep::EvaluateNullable(first) = evaluate {
        match next {
            JoinStep::MergeNullable(nulls) => {
                lemma_left_join_all_accepted(found, given, n);
                assert(merged.take(all.len() as int) =~= merged);
                assert forall|i: int| 0 <= i < columns@.len() implies (#[trigger] nulls@[i])@
                    == shown(columns@[i]@, merged) by {
                    assert(nulls@[i]@ == with_validity(columns@[i]@, matched_side(all)));
                    assert(nulls@[i]@ =~= shown(columns@[i]@, merged));
                }
            },
            JoinStep::MergeNullableFiltered(nulls, bitmap) => {
                lemma_left_join_rows(found, given, probed.row_state@, n);
                assert forall|i: int| 0 <= i < columns@.len() implies (#[trigger] nulls@[i])@
                    == shown(columns@[i]@, merged) by {
                    assert(first@[i]@ == with_validity(columns@[i]@, matched_side(all)));
                    assert(nulls@[i]@ == with_validity(first@[i]@, given));
                    assert(nulls@[i]@ =~= shown(columns@[i]@, merged));
                }
            },
            _ => {},
        }
    }
}

/// With a predicate that accepts every candidate, a semi join gives what it gives without one.
pub proof fn accepting_predicate_keeps_semi_join(
    found: Seq<Option<Seq<RowPtr>>>,
    given: Seq<bool>,
    n: int,
)
    requires
        0 <= n <= found.len(),
        no_empty_entry(found),
        given.len() >= start(found, false, n),
        all_set(given),
    ensures
        semi_rows(found, given, n) == rows_where(found, true, n),
    decreases n,
{
    if n > 0 {
        assert(found[n - 1] matches Some(rows) ==> rows.len() > 0);
        lemma_candidates_at(found, false, n - 1, n);
        accepting_predicate_keeps_semi_join(found, given, n - 1);
        if found[n - 1] is Some {
            assert(given[start(found, false, n - 1)]);
            assert(any_accepted(given, start(found, false, n - 1), start(found, false, n)));
        }
    }
}

/// With a predicate that accepts every candidate, an anti join gives what it gives without one.
pub proof fn accepting_predicate_keeps_anti_join(
    found: Seq<Option<Seq<RowPtr>>>,
    given: Seq<bool>,
    n: int,
)
    requires
        0 <= n <= found.len(),
        no_empty_entry(found),
        given.len() >= start(found, true, n),
        all_set(given),
    ensures
        anti_rows(found, given, n) == rows_where(found, false, n),
    decreases n,
{
    if n > 0 {
        assert(found[n - 1] matches Some(rows) ==> rows.len() > 0);
        lemma_candidates_at(found, true, n - 1, n);
        accepting_predicate_keeps_anti_join(found, given, n - 1);
        if found[n - 1] is Some {
            assert(given[start(found, true, n - 1)]);
            assert(any_accepted(given, start(found, true, n - 1), start(found, true, n)));
        }
    }
}

/// After probing for a predicate, every candidate belongs to a probe row with a counter, so that a
/// verdict per candidate is all that the engine owes.
pub proof fn probing_gives_each_candidate_a_counter(
    table: JoinHashTable,
    found: Seq<Option<Seq<RowPtr>>>,
    before: ProbeState,
    after: ProbeState,
    step: JoinStep,
    given: Seq<bool>,
)
    requires
        table.join_type is Left || table.join_type is Semi || table.join_type is Anti,
        table.has_other_predicate,
        before.is_cleared(),
        probe_outcome(table, found, before, after, step),
        given.len() >= after.probe_indexs@.len(),
    ensures
        fits(given, after.probe_indexs@, after.row_state@),
        after.build_indexs@.len() == after.probe_indexs@.len(),
{
    let n = found.len() as int;
    let pad = !(table.join_type is Semi);
    assert(after.probe_indexs@ =~= probe_side(candidates(found, pad, n)));
    assert(after.build_indexs@ =~= build_side(candidates(found, pad, n)));
    if rows_fit(found) {
        lemma_earlier_rows(found, pad, n);
    }
    assert forall|k: int|
        0 <= k < after.probe_indexs@.len() implies #[trigger] after.probe_indexs@[k]
        < after.row_state@.len() by {
        assert(after.probe_indexs@[k] == candidates(found, pad, n)[k].probe);
    }
}

/// The answers that a step still waits for.
pub open spec fn answers_left(step: JoinStep) -> int {
    match step {
        JoinStep::GatherBuild { validity, with_other_conjunct } => if with_other_conjunct {
            2
        } else {
            1
        },
        JoinStep::EvaluatePredicate { semi } => 1,
        JoinStep::EvaluateNullable(columns) => 1,
        _ => 0,
    }
}

/// Every answer brings a join closer to its result, which takes two answers at most.
pub proof fn joins_end(
    step: JoinStep,
    event: JoinEvent,
    before: ProbeState,
    after: ProbeState,
    next: JoinStep,
)
    requires
        answers(step, event, before),
        resume_outcome(step, event, before, after, next),
    ensures
        0 <= answers_left(next) == answers_left(step) - 1,
        answers_left(step) <= 2,
{
}

} // verus!
