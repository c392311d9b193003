//! From a probed block to the rows of the join result.
//!
//! The blocks themselves belong to the engine: it gathers build rows, takes probe rows, puts them
//! side by side, evaluates predicates and filters. What it has to do, in which order and with which
//! rows and bitmaps is decided here.

use crate::bitmap::bitmap_and;
use crate::bitmap::bitmap_clone;
use crate::bitmap::bitmap_from_mutable;
use crate::bitmap::bitmap_len;
use crate::bitmap::bitmap_new_zeroed;
use crate::bitmap::bitmap_null_count;
use crate::bitmap::bits;
use crate::bitmap::conjunction;
use crate::bitmap::extend_constant;
use crate::bitmap::is_compact;
use crate::bitmap::lemma_count_unset_extremes;
use crate::bitmap::max_bits;
use crate::bitmap::mutable_bitmap_from_len_set;
use crate::bitmap::mutable_bitmap_from_len_zeroed;
use crate::bitmap::mutable_bitmap_new;
use crate::bitmap::mutable_bitmap_push;
use crate::bitmap::mutable_bits;
use crate::bitmap::repeat_bit;
use crate::bitmap::unshare;
use crate::hash_join::fill::anti_bits;
use crate::hash_join::fill::anti_counter;
use crate::hash_join::fill::fill_null_for_anti_join;
use crate::hash_join::fill::fill_null_for_left_join;
use crate::hash_join::fill::fill_null_for_semi_join;
use crate::hash_join::fill::fits;
use crate::hash_join::fill::left_bits;
use crate::hash_join::fill::left_counter;
use crate::hash_join::fill::semi_bits;
use crate::hash_join::fill::semi_counter;
use crate::hash_join::probe::build_side;
use crate::hash_join::probe::candidates;
use crate::hash_join::probe::find_key;
use crate::hash_join::probe::lemma_sides_of_sum;
use crate::hash_join::probe::lookups;
use crate::hash_join::probe::matched_side;
use crate::hash_join::probe::probe_side;
use crate::hash_join::probe::push_matches;
use crate::hash_join::probe::resized;
use crate::hash_join::probe::row_candidates;
use crate::hash_join::probe::rows_where;
use crate::hash_join::probe::weighed;
use crate::hash_join::probe::weights_fit;
use crate::hash_join::probe::Candidate;
use crate::hash_join::probe::ProbeState;
use crate::hash_join::probe::RowPtr;
use arrow2::bitmap::Bitmap;
use std::collections::HashMap;
use std::hash::Hash;
use vstd::prelude::*;
use vstd::std_specs::hash::obeys_key_model;

verus! {

/// How a column of a block represents nulls.
#[derive(Debug)]
pub enum ColumnNulls {
    /// A column of the null type: every value is null.
    Null,
    /// A column with a validity bit per row.
    Nullable(Bitmap),
    /// A column without nulls.
    Required,
}

/// [`ColumnNulls`] with the validity as a sequence.
#[verifier::ext_equal]
pub enum ColumnNullsView {
    Null,
    Nullable(Seq<bool>),
    Required,
}

impl View for ColumnNulls {
    type V = ColumnNullsView;

    open spec fn view(&self) -> ColumnNullsView {
        match *self {
            ColumnNulls::Null => ColumnNullsView::Null,
            ColumnNulls::Nullable(validity) => ColumnNullsView::Nullable(bits(validity)),
            ColumnNulls::Required => ColumnNullsView::Required,
        }
    }
}

/// The column with every row that is unset in `validity` turned into null.
pub open spec fn with_validity(column: ColumnNullsView, validity: Seq<bool>) -> ColumnNullsView {
    match column {
        ColumnNullsView::Null => ColumnNullsView::Null,
        ColumnNullsView::Nullable(own) => ColumnNullsView::Nullable(conjunction(own, validity)),
        ColumnNullsView::Required => ColumnNullsView::Nullable(validity),
    }
}

/// A validity bitmap has a bit for each row of the column.
pub open spec fn validity_fits(column: ColumnNullsView, validity: Seq<bool>) -> bool {
    column matches ColumnNullsView::Nullable(own) ==> own.len() == validity.len() && own.len()
        <= max_bits()
}

/// The value of a predicate on a joined block: a boolean column without nulls.
#[derive(Debug)]
pub enum PredicateColumn {
    /// One value for all rows.
    Const(bool),
    /// A value per row.
    Values(Bitmap),
}

/// The verdict of a predicate on each of the `num_rows` rows of a block.
pub open spec fn verdicts(column: PredicateColumn, num_rows: nat) -> Seq<bool> {
    match column {
        PredicateColumn::Const(value) => repeat_bit(num_rows, value),
        PredicateColumn::Values(values) => bits(values),
    }
}

/// Every bit is set.
pub open spec fn all_set(s: Seq<bool>) -> bool {
    forall|i: int| 0 <= i < s.len() ==> s[i]
}

/// Every bit is unset.
pub open spec fn all_unset(s: Seq<bool>) -> bool {
    forall|i: int| 0 <= i < s.len() ==> !s[i]
}

/// The predicate is known to accept every row: it is constantly true, or no value of it is false.
pub open spec fn accepts_all(column: PredicateColumn) -> bool {
    match column {
        PredicateColumn::Const(value) => value,
        PredicateColumn::Values(values) => all_set(bits(values)),
    }
}

/// What [`get_other_filters`] makes of a column.
pub open spec fn are_filters_of(column: PredicateColumn, r: (Option<Bitmap>, bool, bool)) -> bool {
    match column {
        PredicateColumn::Const(value) => r == (None::<Bitmap>, value, !value),
        PredicateColumn::Values(values) => {
            &&& r.0 == Some(values)
            &&& r.1 <==> all_set(bits(values))
            &&& r.2 <==> all_unset(bits(values))
        },
    }
}

/// The bitmap of a predicate that differs from row to row, whether it accepts every row, and
/// whether it rejects every row.
pub fn get_other_filters(column: PredicateColumn) -> (r: (Option<Bitmap>, bool, bool))
    ensures
        are_filters_of(column, r),
        match column {
            PredicateColumn::Const(value) => r == (None::<Bitmap>, value, !value),
            PredicateColumn::Values(values) => {
                &&& r.0 == Some(values)
                &&& r.1 <==> all_set(bits(values))
                &&& r.2 <==> all_unset(bits(values))
            },
        },
{
    match column {
        // faster path for constant filter
        PredicateColumn::Const(value) => (None, value, !value),
        PredicateColumn::Values(values) => {
            let rows: usize = bitmap_len(&values);
            let count_zeros: usize = bitmap_null_count(&values);
            proof {
                lemma_count_unset_extremes(bits(values));
            }
            (Some(values), count_zeros == 0, rows == count_zeros)
        },
    }
}

/// Turns the rows of a column that are unset in `validity` into nulls.
pub fn set_validity(column: &ColumnNulls, validity: &Bitmap) -> (r: ColumnNulls)
    requires
        validity_fits(column@, bits(*validity)),
    ensures
        r@ == with_validity(column@, bits(*validity)),
{
    match column {
        ColumnNulls::Null => ColumnNulls::Null,
        ColumnNulls::Nullable(own) => ColumnNulls::Nullable(bitmap_and(own, validity)),
        ColumnNulls::Required => ColumnNulls::Nullable(bitmap_clone(validity)),
    }
}

/// [`set_validity`] on each column of a block.
pub fn nullable_columns(columns: &Vec<ColumnNulls>, validity: &Bitmap) -> (r: Vec<ColumnNulls>)
    requires
        columns_fit(columns@, bits(*validity)),
    ensures
        columns_are(r@, columns@, bits(*validity)),
{
    let mut result: Vec<ColumnNulls> = Vec::new();
    let mut i: usize = 0;
    while i < columns.len()
        invariant
            i <= columns@.len(),
            result@.len() == i,
            columns_fit(columns@, bits(*validity)),
            forall|j: int|
                0 <= j < i ==> (#[trigger] result@[j])@ == with_validity(
                    columns@[j]@,
                    bits(*validity),
                ),
        decreases columns@.len() - i,
    {
        result.push(set_validity(&columns[i], validity));
        i = i + 1;
    }
    result
}

/// What the engine has to do next for a join.
#[derive(Debug)]
pub enum JoinStep {
    /// The result is the input block at the rows `probe_indexs`.
    TakeProbe,
    /// The result is the build rows `build_indexs` beside the input rows `probe_indexs`.
    Merge,
    /// As [`JoinStep::Merge`], filtered by the other predicate.
    MergeThenFilter,
    /// Merge, evaluate the other predicate on the merged block, and answer
    /// [`JoinEvent::Predicate`].
    EvaluatePredicate { semi: bool },
    /// The result is the input block at the rows `probe_indexs`, filtered by this bitmap.
    TakeProbeFiltered(Bitmap),
    /// Gather the build rows `build_indexs` and answer [`JoinEvent::BuildColumns`].
    GatherBuild { validity: Bitmap, with_other_conjunct: bool },
    /// The result is the gathered build rows, with nulls as in these columns, beside the input
    /// rows `probe_indexs`.
    MergeNullable(Vec<ColumnNulls>),
    /// Merge as in [`JoinStep::MergeNullable`], evaluate the other predicate on the merged block,
    /// and answer [`JoinEvent::Predicate`].
    EvaluateNullable(Vec<ColumnNulls>),
    /// As [`JoinStep::MergeNullable`], filtered by the bitmap.
    MergeNullableFiltered(Vec<ColumnNulls>, Bitmap),
}

/// What the engine reports back.
#[derive(Debug)]
pub enum JoinEvent {
    /// How the columns of the gathered build block represent nulls.
    BuildColumns(Vec<ColumnNulls>),
    /// The value of the other predicate on the merged block, and the number of its rows.
    Predicate { column: PredicateColumn, num_rows: usize },
}

/// The kinds of join a plan can ask for.
#[derive(Clone, Copy, Debug, PartialEq, Eq, Structural)]
pub enum JoinType {
    Inner,
    Left,
    Right,
    Full,
    Semi,
    Anti,
    Cross,
}

/// The join as its plan describes it.
#[derive(Clone, Copy, Debug)]
pub struct JoinHashTable {
    pub join_type: JoinType,
    /// Whether the join has a predicate besides the equality of the keys.
    pub has_other_predicate: bool,
}

/// Probing appended these candidates.
pub open spec fn appended(before: ProbeState, after: ProbeState, rows: Seq<Candidate>) -> bool {
    &&& after.build_indexs@ == before.build_indexs@ + build_side(rows)
    &&& after.probe_indexs@ == before.probe_indexs@ + probe_side(rows)
}

/// The counters after probing are those of `state` with the weights of all probe rows added.
pub open spec fn counted(
    before: ProbeState,
    after: ProbeState,
    found: Seq<Option<Seq<RowPtr>>>,
    unmatched: u32,
) -> bool {
    &&& after.row_state@.len() == found.len()
    &&& forall|row: int|
        0 <= row < found.len() ==> #[trigger] after.row_state@[row] == weighed(
            before.row_state@,
            found,
            unmatched,
            found.len() as int,
        )[row]
}

/// The joins that can be probed.
pub open spec fn is_probed(join_type: JoinType) -> bool {
    join_type is Inner || join_type is Left || join_type is Semi || join_type is Anti
}

/// How probing a block ends: the next step, and what it leaves in the probe state.
pub open spec fn probe_outcome(
    table: JoinHashTable,
    found: Seq<Option<Seq<RowPtr>>>,
    before: ProbeState,
    after: ProbeState,
    step: JoinStep,
) -> bool {
    let n = found.len() as int;
    match table.join_type {
        JoinType::Inner => {
            &&& appended(before, after, candidates(found, false, n))
            &&& after.row_state == before.row_state
            &&& step == if table.has_other_predicate {
                JoinStep::MergeThenFilter
            } else {
                JoinStep::Merge
            }
        },
        JoinType::Left => {
            &&& appended(before, after, candidates(found, true, n))
            &&& if table.has_other_predicate {
                counted(before, after, found, 1)
            } else {
                after.row_state == before.row_state
            }
            &&& step matches JoinStep::GatherBuild { validity, with_other_conjunct } && {
                &&& bits(validity) == matched_side(candidates(found, true, n))
                &&& with_other_conjunct == table.has_other_predicate
            }
        },
        _ => {
            let semi = table.join_type is Semi;
            if table.has_other_predicate {
                &&& appended(before, after, candidates(found, !semi, n))
                &&& if semi {
                    after.row_state@ == resized(before.row_state@, found.len())
                } else {
                    counted(before, after, found, 0)
                }
                &&& step == if after.probe_indexs@.len() == (if semi {
                    0
                } else {
                    rows_where(found, false, n).len()
                }) {
                    JoinStep::TakeProbe
                } else {
                    JoinStep::EvaluatePredicate { semi }
                }
            } else {
                &&& after.probe_indexs@ == before.probe_indexs@ + rows_where(found, semi, n)
                &&& after.build_indexs == before.build_indexs
                &&& after.row_state == before.row_state
                &&& step is TakeProbe
            }
        },
    }
}

/// The counters that a filtering phase leaves: `counter` of each row.
pub open spec fn counters_are(after: ProbeState, len: nat, counter: spec_fn(int) -> int) -> bool {
    &&& after.row_state@.len() == len
    &&& forall|row: int| 0 <= row < len ==> #[trigger] after.row_state@[row] == counter(row)
}

/// Whether `event` answers `step`, with a verdict and a counter for each candidate and with
/// validity bitmaps of one length.
pub open spec fn answers(step: JoinStep, event: JoinEvent, state: ProbeState) -> bool {
    match (step, event) {
        (
            JoinStep::EvaluatePredicate { semi },
            JoinEvent::Predicate { column, num_rows },
        ) => predicate_fits(column, num_rows, state),
        (
            JoinStep::GatherBuild { validity, with_other_conjunct },
            JoinEvent::BuildColumns(columns),
        ) => columns_fit(columns@, bits(validity)),
        (
            JoinStep::EvaluateNullable(columns),
            JoinEvent::Predicate { column, num_rows },
        ) => predicate_fits(column, num_rows, state) && columns_fit(
            columns@,
            verdicts(column, num_rows as nat),
        ),
        _ => false,
    }
}

/// How a join goes on after an answer: the next step, and what it leaves in the probe state.
pub open spec fn resume_outcome(
    step: JoinStep,
    event: JoinEvent,
    before: ProbeState,
    after: ProbeState,
    next: JoinStep,
) -> bool {
    let probe = before.probe_indexs@;
    let state = before.row_state@;
    let n = probe.len() as int;
    &&& after.probe_indexs == before.probe_indexs
    &&& after.build_indexs == before.build_indexs
    &&& match (step, event) {
        (
            JoinStep::EvaluatePredicate { semi },
            JoinEvent::Predicate { column, num_rows },
        ) => {
            let given = verdicts(column, num_rows as nat);
            &&& next matches JoinStep::TakeProbeFiltered(bitmap) && bits(bitmap) == if semi {
                semi_bits(given, probe, state)
            } else {
                anti_bits(given, probe, state)
            }
            &&& counters_are(
                after,
                state.len(),
                |row: int|
                    if semi {
                        semi_counter(given, probe, state, row, n) as int
                    } else {
                        anti_counter(given, probe, state, row, n)
                    },
            )
        },
        (
            JoinStep::GatherBuild { validity, with_other_conjunct },
            JoinEvent::BuildColumns(columns),
        ) => {
            &&& after.row_state == before.row_state
            &&& if with_other_conjunct {
                next matches JoinStep::EvaluateNullable(nulls) && columns_are(
                    nulls@,
                    columns@,
                    bits(validity),
                )
            } else {
                next matches JoinStep::MergeNullable(nulls) && columns_are(
                    nulls@,
                    columns@,
                    bits(validity),
                )
            }
        },
        (
            JoinStep::EvaluateNullable(columns),
            JoinEvent::Predicate { column, num_rows },
        ) => {
            let given = verdicts(column, num_rows as nat);
            if accepts_all(column) {
                &&& after.row_state == before.row_state
                &&& next == JoinStep::MergeNullable(columns)
            } else {
                &&& next matches JoinStep::MergeNullableFiltered(nulls, bitmap) && {
                    &&& columns_are(nulls@, columns@, given)
                    &&& bits(bitmap) == left_bits(given, probe, state)
                }
                &&& counters_are(
                    after,
                    state.len(),
                    |row: int| left_counter(given, probe, state, row, n),
                )
            }
        },
        _ => false,
    }
}

/// There is a verdict and a counter for each candidate.
pub open spec fn predicate_fits(
    column: PredicateColumn,
    num_rows: usize,
    state: ProbeState,
) -> bool {
    &&& fits(verdicts(column, num_rows as nat), state.probe_indexs@, state.row_state@)
    &&& column is Const ==> num_rows <= max_bits()
}

/// [`validity_fits`] for each column.
pub open spec fn columns_fit(columns: Seq<ColumnNulls>, validity: Seq<bool>) -> bool {
    forall|i: int| 0 <= i < columns.len() ==> validity_fits((#[trigger] columns[i])@, validity)
}

/// [`with_validity`] on each column.
pub open spec fn columns_are(
    after: Seq<ColumnNulls>,
    before: Seq<ColumnNulls>,
    validity: Seq<bool>,
) -> bool {
    &&& after.len() == before.len()
    &&& forall|i: int|
        0 <= i < before.len() ==> (#[trigger] after[i])@ == with_validity(before[i]@, validity)
}

impl JoinHashTable {
    /// A semi or an anti join without an extra predicate: the probe rows whose key is, or is not,
    /// on the build side.
    pub fn semi_anti_join<const SEMI: bool, Key: Eq + Hash>(
        &self,
        hash_table: &HashMap<Key, Vec<RowPtr>>,
        probe_state: &mut ProbeState,
        keys: &Vec<Key>,
    )
        requires
            obeys_key_model::<Key>(),
        ensures
            final(probe_state).probe_indexs@ == old(probe_state).probe_indexs@ + rows_where(
                lookups(hash_table@, keys@),
                SEMI,
                keys@.len() as int,
            ),
            final(probe_state).build_indexs == old(probe_state).build_indexs,
            final(probe_state).row_state == old(probe_state).row_state,
    {
        let ghost found = lookups(hash_table@, keys@);
        let mut i: usize = 0;
        while i < keys.len()
            invariant
                obeys_key_model::<Key>(),
                i <= keys@.len(),
                found == lookups(hash_table@, keys@),
                probe_state.probe_indexs@ == old(probe_state).probe_indexs@ + rows_where(
                    found,
                    SEMI,
                    i as int,
                ),
                probe_state.build_indexs == old(probe_state).build_indexs,
                probe_state.row_state == old(probe_state).row_state,
            decreases keys@.len() - i,
        {
            let present = find_key(hash_table, &keys[i]).is_some();
            if present == SEMI {
                probe_state.probe_indexs.push(i as u32);
            }
            i = i + 1;
            assert(probe_state.probe_indexs@ =~= old(probe_state).probe_indexs@ + rows_where(
                found,
                SEMI,
                i as int,
            ));
        }
    }

    /// The probing phase of an inner join: every pair of a probe row and a build row of its key.
    pub fn inner_join<Key: Eq + Hash>(
        &self,
        hash_table: &HashMap<Key, Vec<RowPtr>>,
        probe_state: &mut ProbeState,
        keys: &Vec<Key>,
    )
        requires
            obeys_key_model::<Key>(),
        ensures
            final(probe_state).build_indexs@ == old(probe_state).build_indexs@ + build_side(
                candidates(lookups(hash_table@, keys@), false, keys@.len() as int),
            ),
            final(probe_state).probe_indexs@ == old(probe_state).probe_indexs@ + probe_side(
                candidates(lookups(hash_table@, keys@), false, keys@.len() as int),
            ),
            final(probe_state).row_state == old(probe_state).row_state,
    {
        let ghost found = lookups(hash_table@, keys@);
        let mut i: usize = 0;
        assert(build_side(candidates(found, false, 0)) =~= Seq::<RowPtr>::empty());
        assert(probe_side(candidates(found, false, 0)) =~= Seq::<u32>::empty());
        while i < keys.len()
            invariant
                obeys_key_model::<Key>(),
                i <= keys@.len(),
                found == lookups(hash_table@, keys@),
                probe_state.build_indexs@ == old(probe_state).build_indexs@ + build_side(
                    candidates(found, false, i as int),
                ),
                probe_state.probe_indexs@ == old(probe_state).probe_indexs@ + probe_side(
                    candidates(found, false, i as int),
                ),
                probe_state.row_state == old(probe_state).row_state,
            decreases keys@.len() - i,
        {
            let ghost added = row_candidates(found[i as int], i as int, false);
            proof {
                lemma_sides_of_sum(candidates(found, false, i as int), added);
            }
            match find_key(hash_table, &keys[i]) {
                Some(rows) => {
                    push_matches(
                        &mut probe_state.build_indexs,
                        &mut probe_state.probe_indexs,
                        rows,
                        i,
                    );
                },
                None => {},
            }
            i = i + 1;
            assert(probe_state.build_indexs@ =~= old(probe_state).build_indexs@ + build_side(
                candidates(found, false, i as int),
            ));
            assert(probe_state.probe_indexs@ =~= old(probe_state).probe_indexs@ + probe_side(
                candidates(found, false, i as int),
            ));
        }
    }

    /// The probing phase of a semi or an anti join with an extra predicate. Returns whether the
    /// taken probe rows are the result already: none of them has a build row to evaluate the
    /// predicate on.
    pub fn semi_anti_join_with_other_conjunct<const SEMI: bool, Key: Eq + Hash>(
        &self,
        hash_table: &HashMap<Key, Vec<RowPtr>>,
        probe_state: &mut ProbeState,
        keys: &Vec<Key>,
    ) -> (done: bool)
        requires
            obeys_key_model::<Key>(),
            !SEMI ==> weights_fit(old(probe_state).row_state@, lookups(hash_table@, keys@), 0),
        ensures
            final(probe_state).build_indexs@ == old(probe_state).build_indexs@ + build_side(
                candidates(lookups(hash_table@, keys@), !SEMI, keys@.len() as int),
            ),
            final(probe_state).probe_indexs@ == old(probe_state).probe_indexs@ + probe_side(
                candidates(lookups(hash_table@, keys@), !SEMI, keys@.len() as int),
            ),
            final(probe_state).row_state@.len() == keys@.len(),
            forall|row: int|
                0 <= row < keys@.len()
                    ==> #[trigger] final(probe_state).row_state@[row] == if SEMI {
                    resized(old(probe_state).row_state@, keys@.len())[row] as int
                } else {
                    weighed(
                        old(probe_state).row_state@,
                        lookups(hash_table@, keys@),
                        0,
                        keys@.len() as int,
                    )[row]
                },
            done <==> final(probe_state).probe_indexs@.len() == if SEMI {
                0
            } else {
                rows_where(lookups(hash_table@, keys@), false, keys@.len() as int).len()
            },
    {
        let ghost found = lookups(hash_table@, keys@);
        let ghost state = probe_state.row_state@;
        // For semi join, it defaults to all
        probe_state.row_state.resize(keys.len(), 0);
        let mut dummys: usize = 0;
        let mut i: usize = 0;
        assert(build_side(candidates(found, !SEMI, 0)) =~= Seq::<RowPtr>::empty());
        assert(probe_side(candidates(found, !SEMI, 0)) =~= Seq::<u32>::empty());
        while i < keys.len()
            invariant
                obeys_key_model::<Key>(),
                i <= keys@.len(),
                found == lookups(hash_table@, keys@),
                state == old(probe_state).row_state@,
                !SEMI ==> weights_fit(state, found, 0),
                probe_state.build_indexs@ == old(probe_state).build_indexs@ + build_side(
                    candidates(found, !SEMI, i as int),
                ),
                probe_state.probe_indexs@ == old(probe_state).probe_indexs@ + probe_side(
                    candidates(found, !SEMI, i as int),
                ),
                probe_state.row_state@.len() == keys@.len(),
                forall|row: int|
                    0 <= row < keys@.len() ==> #[trigger] probe_state.row_state@[row] == if SEMI {
                        resized(state, keys@.len())[row] as int
                    } else {
                        weighed(state, found, 0, i as int)[row]
                    },
                dummys == if SEMI {
                    0
                } else {
                    rows_where(found, false, i as int).len()
                },
                dummys <= i,
            decreases keys@.len() - i,
        {
            let ghost added = row_candidates(found[i as int], i as int, !SEMI);
            proof {
                lemma_sides_of_sum(candidates(found, !SEMI, i as int), added);
                if !SEMI {
                    assert(weighed(state, found, 0, found.len() as int)[i as int] <= u32::MAX);
                }
            }
            match find_key(hash_table, &keys[i]) {
                Some(rows) => {
                    push_matches(
                        &mut probe_state.build_indexs,
                        &mut probe_state.probe_indexs,
                        rows,
                        i,
                    );
                    if !SEMI {
                        let count: u32 = probe_state.row_state[i];
                        probe_state.row_state.set(i, count + rows.len() as u32);
                    }
                },
                None => {
                    if !SEMI {
                        // a placeholder that must not be filtered out: it adds nothing to the
                        // counter of its row
                        probe_state.build_indexs.push(RowPtr { chunk_index: 0, row_index: 0 });
                        probe_state.probe_indexs.push(i as u32);
                        dummys = dummys + 1;
                    }
                },
            }
            i = i + 1;
            assert(probe_state.build_indexs@ =~= old(probe_state).build_indexs@ + build_side(
                candidates(found, !SEMI, i as int),
            ));
            assert(probe_state.probe_indexs@ =~= old(probe_state).probe_indexs@ + probe_side(
                candidates(found, !SEMI, i as int),
            ));
        }
        dummys == probe_state.probe_indexs.len()
    }

    /// The probing phase of a left join: every pair of a probe row and a build row of its key, and
    /// a placeholder for a probe row whose key is not on the build side. Returns which of the
    /// candidates have a build row.
    pub fn left_join<const WITH_OTHER_CONJUNCT: bool, Key: Eq + Hash>(
        &self,
        hash_table: &HashMap<Key, Vec<RowPtr>>,
        probe_state: &mut ProbeState,
        keys: &Vec<Key>,
    ) -> (validity: Bitmap)
        requires
            obeys_key_model::<Key>(),
            WITH_OTHER_CONJUNCT ==> weights_fit(
                old(probe_state).row_state@,
                lookups(hash_table@, keys@),
                1,
            ),
        ensures
            final(probe_state).build_indexs@ == old(probe_state).build_indexs@ + build_side(
                candidates(lookups(hash_table@, keys@), true, keys@.len() as int),
            ),
            final(probe_state).probe_indexs@ == old(probe_state).probe_indexs@ + probe_side(
                candidates(lookups(hash_table@, keys@), true, keys@.len() as int),
            ),
            bits(validity) == matched_side(
                candidates(lookups(hash_table@, keys@), true, keys@.len() as int),
            ),
            if WITH_OTHER_CONJUNCT {
                &&& final(probe_state).row_state@.len() == keys@.len()
                &&& forall|row: int|
                    0 <= row < keys@.len() ==> #[trigger] final(probe_state).row_state@[row]
                        == weighed(
                        old(probe_state).row_state@,
                        lookups(hash_table@, keys@),
                        1,
                        keys@.len() as int,
                    )[row]
            } else {
                final(probe_state).row_state == old(probe_state).row_state
            },
    {
        let ghost found = lookups(hash_table@, keys@);
        let ghost state = probe_state.row_state@;
        if WITH_OTHER_CONJUNCT {
            probe_state.row_state.resize(keys.len(), 0);
        }
        let mut validity = mutable_bitmap_new();
        let mut i: usize = 0;
        assert(build_side(candidates(found, true, 0)) =~= Seq::<RowPtr>::empty());
        assert(probe_side(candidates(found, true, 0)) =~= Seq::<u32>::empty());
        assert(matched_side(candidates(found, true, 0)) =~= Seq::<bool>::empty());
        while i < keys.len()
            invariant
                obeys_key_model::<Key>(),
                i <= keys@.len(),
                found == lookups(hash_table@, keys@),
                state == old(probe_state).row_state@,
                WITH_OTHER_CONJUNCT ==> weights_fit(state, found, 1),
                probe_state.build_indexs@ == old(probe_state).build_indexs@ + build_side(
                    candidates(found, true, i as int),
                ),
                probe_state.probe_indexs@ == old(probe_state).probe_indexs@ + probe_side(
                    candidates(found, true, i as int),
                ),
                is_compact(validity),
                mutable_bits(validity) == matched_side(candidates(found, true, i as int)),
                if WITH_OTHER_CONJUNCT {
                    &&& probe_state.row_state@.len() == keys@.len()
                    &&& forall|row: int|
                        0 <= row < keys@.len() ==> #[trigger] probe_state.row_state@[row]
                            == weighed(state, found, 1, i as int)[row]
                } else {
                    probe_state.row_state == old(probe_state).row_state
                },
            decreases keys@.len() - i,
        {
            let ghost added = row_candidates(found[i as int], i as int, true);
            proof {
                lemma_sides_of_sum(candidates(found, true, i as int), added);
                if WITH_OTHER_CONJUNCT {
                    assert(weighed(state, found, 1, found.len() as int)[i as int] <= u32::MAX);
                }
            }
            match find_key(hash_table, &keys[i]) {
                Some(rows) => {
                    push_matches(
                        &mut probe_state.build_indexs,
                        &mut probe_state.probe_indexs,
                        rows,
                        i,
                    );
                    if WITH_OTHER_CONJUNCT {
                        let count: u32 = probe_state.row_state[i];
                        probe_state.row_state.set(i, count + rows.len() as u32);
                    }
                    assert(probe_state.probe_indexs.len() >= mutable_bits(validity).len()
                        + rows.len());
                    extend_constant(&mut validity, rows.len(), true);
                    assert(repeat_bit(rows@.len(), true) =~= matched_side(added));
                },
                None => {
                    probe_state.build_indexs.push(RowPtr { chunk_index: 0, row_index: 0 });
                    probe_state.probe_indexs.push(i as u32);
                    assert(probe_state.probe_indexs.len() >= mutable_bits(validity).len() + 1);
                    mutable_bitmap_push(&mut validity, false);
                    if WITH_OTHER_CONJUNCT {
                        let count: u32 = probe_state.row_state[i];
                        probe_state.row_state.set(i, count + 1);
                    }
                },
            }
            i = i + 1;
            assert(probe_state.build_indexs@ =~= old(probe_state).build_indexs@ + build_side(
                candidates(found, true, i as int),
            ));
            assert(probe_state.probe_indexs@ =~= old(probe_state).probe_indexs@ + probe_side(
                candidates(found, true, i as int),
            ));
            assert(mutable_bits(validity) =~= matched_side(candidates(found, true, i as int)));
        }
        bitmap_from_mutable(validity)
    }

    /// The filtering phase of a semi or an anti join with an extra predicate: the bitmap to filter
    /// the taken probe rows with.
    pub fn semi_anti_filter<const SEMI: bool>(
        &self,
        probe_state: &mut ProbeState,
        column: PredicateColumn,
        num_rows: usize,
    ) -> (r: Bitmap)
        requires
            predicate_fits(column, num_rows, *old(probe_state)),
        ensures
            bits(r) == if SEMI {
                semi_bits(
                    verdicts(column, num_rows as nat),
                    old(probe_state).probe_indexs@,
                    old(probe_state).row_state@,
                )
            } else {
                anti_bits(
                    verdicts(column, num_rows as nat),
                    old(probe_state).probe_indexs@,
                    old(probe_state).row_state@,
                )
            },
            final(probe_state).probe_indexs == old(probe_state).probe_indexs,
            final(probe_state).build_indexs == old(probe_state).build_indexs,
            final(probe_state).row_state@.len() == old(probe_state).row_state@.len(),
            forall|row: int|
                0 <= row < old(probe_state).row_state@.len()
                    ==> #[trigger] final(probe_state).row_state@[row] == if SEMI {
                    semi_counter(
                        verdicts(column, num_rows as nat),
                        old(probe_state).probe_indexs@,
                        old(probe_state).row_state@,
                        row,
                        old(probe_state).probe_indexs@.len() as int,
                    ) as int
                } else {
                    anti_counter(
                        verdicts(column, num_rows as nat),
                        old(probe_state).probe_indexs@,
                        old(probe_state).row_state@,
                        row,
                        old(probe_state).probe_indexs@.len() as int,
                    )
                },
    {
        let ghost verdict_bits = verdicts(column, num_rows as nat);
        let (bitmap, all_true, _) = get_other_filters(column);
        let mut bm = match bitmap {
            Some(values) => unshare(values),
            None => if all_true {
                mutable_bitmap_from_len_set(num_rows)
            } else {
                mutable_bitmap_from_len_zeroed(num_rows)
            },
        };
        assert(mutable_bits(bm) == verdict_bits);
        if SEMI {
            fill_null_for_semi_join(
                &mut bm,
                &probe_state.probe_indexs,
                &mut probe_state.row_state,
            );
        } else {
            fill_null_for_anti_join(
                &mut bm,
                &probe_state.probe_indexs,
                &mut probe_state.row_state,
            );
        }
        bitmap_from_mutable(bm)
    }

    /// The filtering phase of a left join with an extra predicate: nothing if the predicate accepts
    /// every row, else the nulls of the build columns and the bitmap to filter the merged block
    /// with.
    pub fn left_filter(
        &self,
        probe_state: &mut ProbeState,
        columns: &Vec<ColumnNulls>,
        column: PredicateColumn,
        num_rows: usize,
    ) -> (r: Option<(Vec<ColumnNulls>, Bitmap)>)
        requires
            predicate_fits(column, num_rows, *old(probe_state)),
            columns_fit(columns@, verdicts(column, num_rows as nat)),
        ensures
            r is None <==> accepts_all(column),
            final(probe_state).probe_indexs == old(probe_state).probe_indexs,
            final(probe_state).build_indexs == old(probe_state).build_indexs,
            match r {
                None => final(probe_state).row_state == old(probe_state).row_state,
                Some((nulls, predicate)) => {
                    &&& columns_are(nulls@, columns@, verdicts(column, num_rows as nat))
                    &&& bits(predicate) == left_bits(
                        verdicts(column, num_rows as nat),
                        old(probe_state).probe_indexs@,
                        old(probe_state).row_state@,
                    )
                    &&& final(probe_state).row_state@.len() == old(probe_state).row_state@.len()
                    &&& forall|row: int|
                        0 <= row < old(probe_state).row_state@.len()
                            ==> #[trigger] final(probe_state).row_state@[row] == left_counter(
                            verdicts(column, num_rows as nat),
                            old(probe_state).probe_indexs@,
                            old(probe_state).row_state@,
                            row,
                            old(probe_state).probe_indexs@.len() as int,
                        )
                },
            },
    {
        let ghost verdict_bits = verdicts(column, num_rows as nat);
        let (bitmap, all_true, _) = get_other_filters(column);
        if all_true {
            return None;
        }
        let validity = match bitmap {
            Some(values) => values,
            None => bitmap_new_zeroed(num_rows),
        };
        assert(bits(validity) == verdict_bits);
        let nulls = nullable_columns(columns, &validity);
        let mut bm = unshare(validity);
        fill_null_for_left_join(&mut bm, &probe_state.probe_indexs, &mut probe_state.row_state);
        Some((nulls, bitmap_from_mutable(bm)))
    }

    /// Probes a block with its keys and says what the engine has to do with the candidates.
    pub fn result_blocks<Key: Eq + Hash>(
        &self,
        hash_table: &HashMap<Key, Vec<RowPtr>>,
        probe_state: &mut ProbeState,
        keys: &Vec<Key>,
    ) -> (step: JoinStep)
        requires
            obeys_key_model::<Key>(),
            is_probed(self.join_type),
            self.join_type is Anti && self.has_other_predicate ==> weights_fit(
                old(probe_state).row_state@,
                lookups(hash_table@, keys@),
                0,
            ),
            self.join_type is Left && self.has_other_predicate ==> weights_fit(
                old(probe_state).row_state@,
                lookups(hash_table@, keys@),
                1,
            ),
        ensures
            probe_outcome(
                *self,
                lookups(hash_table@, keys@),
                *old(probe_state),
                *final(probe_state),
                step,
            ),
    {
        match self.join_type {
            JoinType::Inner => {
                self.inner_join(hash_table, probe_state, keys);
                if self.has_other_predicate {
                    JoinStep::MergeThenFilter
                } else {
                    JoinStep::Merge
                }
            },
            JoinType::Semi => {
                if !self.has_other_predicate {
                    self.semi_anti_join::<true, Key>(hash_table, probe_state, keys);
                    JoinStep::TakeProbe
                } else {
                    let done = self.semi_anti_join_with_other_conjunct::<true, Key>(
                        hash_table,
                        probe_state,
                        keys,
                    );
                    assert(probe_state.row_state@ =~= resized(
                        old(probe_state).row_state@,
                        keys@.len(),
                    ));
                    if done {
                        JoinStep::TakeProbe
                    } else {
                        JoinStep::EvaluatePredicate { semi: true }
                    }
                }
            },
            JoinType::Anti => {
                if !self.has_other_predicate {
                    self.semi_anti_join::<false, Key>(hash_table, probe_state, keys);
                    JoinStep::TakeProbe
                } else {
                    let done = self.semi_anti_join_with_other_conjunct::<false, Key>(
                        hash_table,
                        probe_state,
                        keys,
                    );
                    if done {
                        JoinStep::TakeProbe
                    } else {
                        JoinStep::EvaluatePredicate { semi: false }
                    }
                }
            },
            // probe_blocks left join build blocks
            _ => {
                let validity = if self.has_other_predicate {
                    self.left_join::<true, Key>(hash_table, probe_state, keys)
                } else {
                    self.left_join::<false, Key>(hash_table, probe_state, keys)
                };
                JoinStep::GatherBuild { validity, with_other_conjunct: self.has_other_predicate }
            },
        }
    }

    /// Goes on after the engine has answered a step.
    pub fn resume(
        &self,
        step: JoinStep,
        event: JoinEvent,
        probe_state: &mut ProbeState,
    ) -> (next: JoinStep)
        requires
            answers(step, event, *old(probe_state)),
        ensures
            resume_outcome(step, event, *old(probe_state), *final(probe_state), next),
    {
        match (step, event) {
            (
                JoinStep::EvaluatePredicate { semi },
                JoinEvent::Predicate { column, num_rows },
            ) => {
                let bitmap = if semi {
                    self.semi_anti_filter::<true>(probe_state, column, num_rows)
                } else {
                    self.semi_anti_filter::<false>(probe_state, column, num_rows)
                };
                JoinStep::TakeProbeFiltered(bitmap)
            },
            (
                JoinStep::GatherBuild { validity, with_other_conjunct },
                JoinEvent::BuildColumns(columns),
            ) => {
                let nulls = nullable_columns(&columns, &validity);
                if with_other_conjunct {
                    JoinStep::EvaluateNullable(nulls)
                } else {
                    JoinStep::MergeNullable(nulls)
                }
            },
            (
                JoinStep::EvaluateNullable(columns),
                JoinEvent::Predicate { column, num_rows },
            ) => {
                match self.left_filter(probe_state, &columns, column, num_rows) {
                    None => JoinStep::MergeNullable(columns),
                    Some((nulls, bitmap)) => JoinStep::MergeNullableFiltered(nulls, bitmap),
                }
            },
            (other, _) => other,
        }
    }
}

} // verus!
