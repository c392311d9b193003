//! What a caller can rely on, said of the hash table, the keys, the bitmaps and the counters
//! themselves.

use crate::bitmap::bits;
use crate::hash_join::fill::accepted_before;
use crate::hash_join::fill::anti_bit;
use crate::hash_join::fill::anti_counter;
use crate::hash_join::fill::fits;
use crate::hash_join::fill::left_bit;
use crate::hash_join::fill::left_counter;
use crate::hash_join::fill::lemma_anti_transition;
use crate::hash_join::fill::lemma_left_transition;
use crate::hash_join::fill::lemma_semi_transition;
use crate::hash_join::fill::rejected_before;
use crate::hash_join::fill::semi_bit;
use crate::hash_join::fill::semi_counter;
use crate::hash_join::fill::settled_before;
use crate::hash_join::laws::any_accepted;
use crate::hash_join::laws::counts_candidates;
use crate::hash_join::laws::lemma_candidates_at;
use crate::hash_join::laws::lemma_segment;
use crate::hash_join::laws::lemma_within_segment;
use crate::hash_join::laws::start;
use crate::hash_join::probe::build_side;
use crate::hash_join::probe::candidates;
use crate::hash_join::probe::lookups;
use crate::hash_join::probe::matched_side;
use crate::hash_join::probe::probe_side;
use crate::hash_join::probe::row_candidates;
use crate::hash_join::probe::row_weight;
use crate::hash_join::probe::rows_where;
use crate::hash_join::probe::weighed;
use crate::hash_join::probe::ProbeState;
use crate::hash_join::probe::RowPtr;
use crate::hash_join::relations::lemma_first_accepted;
use crate::hash_join::result_blocks::answers;
use crate::hash_join::result_blocks::are_filters_of;
use crate::hash_join::result_blocks::columns_are;
use crate::hash_join::result_blocks::columns_fit;
use crate::hash_join::result_blocks::probe_outcome;
use crate::hash_join::result_blocks::resume_outcome;
use crate::hash_join::result_blocks::validity_fits;
use crate::hash_join::result_blocks::verdicts;
use crate::hash_join::result_blocks::with_validity;
use crate::hash_join::result_blocks::ColumnNulls;
use crate::hash_join::result_blocks::JoinEvent;
use crate::hash_join::result_blocks::JoinHashTable;
use crate::hash_join::result_blocks::JoinStep;
use crate::hash_join::result_blocks::PredicateColumn;
use arrow2::bitmap::Bitmap;
use vstd::prelude::*;

verus! {

/// Probing goes through all keys. What it appends for the probe row `i` stands at `at[i]`: the row
/// beside each build row that the table has for `keys[i]`, in their order. A key that the table
/// does not contain adds nothing, except in a left join and in an anti join with a predicate: there
/// it adds the row once, beside the very first build row, and a left join marks it as unmatched.
/// What stood in the probe state before stays in front.
pub proof fn probing_lists_the_matches_of_every_key<Key>(
    join: JoinHashTable,
    table: Map<Key, Vec<RowPtr>>,
    keys: Seq<Key>,
    before: ProbeState,
    after: ProbeState,
    step: JoinStep,
) -> (at: Seq<int>)
    requires
        join.join_type is Inner || join.join_type is Left || (join.has_other_predicate && (
        join.join_type is Semi || join.join_type is Anti)),
        probe_outcome(join, lookups(table, keys), before, after, step),
    ensures
        at.len() == keys.len() + 1,
        at[0] == 0,
        forall|i: int|
            #![trigger keys[i]]
            0 <= i < keys.len() ==> at[i + 1] == at[i] + (if table.contains_key(keys[i]) {
                table[keys[i]]@.len() as int
            } else if join.join_type is Left || join.join_type is Anti {
                1
            } else {
                0
            }),
        after.probe_indexs@.len() == before.probe_indexs@.len() + at[keys.len() as int],
        after.build_indexs@.len() == before.build_indexs@.len() + at[keys.len() as int],
        forall|k: int|
            0 <= k < before.probe_indexs@.len() ==> #[trigger] after.probe_indexs@[k]
                == before.probe_indexs@[k],
        forall|k: int|
            0 <= k < before.build_indexs@.len() ==> #[trigger] after.build_indexs@[k]
                == before.build_indexs@[k],
        forall|i: int|
            #![trigger keys[i]]
            0 <= i < keys.len() ==> {
                &&& 0 <= at[i] <= at[i + 1] <= at[keys.len() as int]
                &&& after.probe_indexs@.subrange(
                    before.probe_indexs@.len() + at[i],
                    before.probe_indexs@.len() + at[i + 1],
                ) == Seq::new((at[i + 1] - at[i]) as nat, |j: int| i as u32)
                &&& after.build_indexs@.subrange(
                    before.build_indexs@.len() + at[i],
                    before.build_indexs@.len() + at[i + 1],
                ) == if table.contains_key(keys[i]) {
                    table[keys[i]]@
                } else if join.join_type is Left || join.join_type is Anti {
                    seq![RowPtr { chunk_index: 0, row_index: 0 }]
                } else {
                    Seq::empty()
                }
                &&& step matches JoinStep::GatherBuild { validity, with_other_conjunct }
                    ==> bits(validity).subrange(at[i], at[i + 1]) == Seq::new(
                    (at[i + 1] - at[i]) as nat,
                    |j: int| table.contains_key(keys[i]),
                )
            },
        step matches JoinStep::GatherBuild { validity, with_other_conjunct } ==> bits(
            validity,
        ).len() == at[keys.len() as int],
{
    let found = lookups(table, keys);
    let n = keys.len() as int;
    let pad = join.join_type is Left || join.join_type is Anti;
    let at = Seq::new((n + 1) as nat, |i: int| start(found, pad, i));
    let b = before.probe_indexs@.len();
    let c = before.build_indexs@.len();
    assert(after.probe_indexs@ == before.probe_indexs@ + probe_side(candidates(found, pad, n)));
    assert(after.build_indexs@ == before.build_indexs@ + build_side(candidates(found, pad, n)));
    assert forall|i: int| #![trigger keys[i]] 0 <= i < n implies at[i + 1] == at[i] + (
    if table.contains_key(keys[i]) {
        table[keys[i]]@.len() as int
    } else if pad {
        1
    } else {
        0
    }) by {
        lemma_candidates_at(found, pad, i, n);
    }
    assert forall|i: int| #![trigger keys[i]] 0 <= i < n implies {
        &&& 0 <= at[i] <= at[i + 1] <= at[n]
        &&& after.probe_indexs@.subrange(b + at[i], b + at[i + 1]) == Seq::new(
            (at[i + 1] - at[i]) as nat,
            |j: int| i as u32,
        )
        &&& after.build_indexs@.subrange(c + at[i], c + at[i + 1]) == if table.contains_key(
            keys[i],
        ) {
            table[keys[i]]@
        } else if pad {
            seq![RowPtr { chunk_index: 0, row_index: 0 }]
        } else {
            Seq::empty()
        }
        &&& step matches JoinStep::GatherBuild { validity, with_other_conjunct } ==> bits(
            validity,
        ).subrange(at[i], at[i + 1]) == Seq::new(
            (at[i + 1] - at[i]) as nat,
            |j: int| table.contains_key(keys[i]),
        )
    } by {
        lemma_candidates_at(found, pad, i, n);
        let own = row_candidates(found[i], i, pad);
        assert forall|j: int| 0 <= j < own.len() implies {
            &&& after.probe_indexs@[b + at[i] + j] == (#[trigger] own[j]).probe
            &&& after.build_indexs@[c + at[i] + j] == own[j].build
            &&& step matches JoinStep::GatherBuild { validity, with_other_conjunct }
                ==> bits(validity)[at[i] + j] == own[j].matched
        } by {
            lemma_appended_at(join, found, pad, before, after, step, at[i] + j);
            assert(candidates(found, pad, n)[at[i] + j] == own[j]);
        }
        let probes = after.probe_indexs@.subrange(b + at[i], b + at[i + 1]);
        assert forall|j: int| 0 <= j < probes.len() implies #[trigger] probes[j] == i as u32 by {
            assert(own[j].probe == i as u32);
        }
        assert(probes =~= Seq::new((at[i + 1] - at[i]) as nat, |j: int| i as u32));
        let builds = after.build_indexs@.subrange(c + at[i], c + at[i + 1]);
        assert forall|j: int| 0 <= j < builds.len() implies #[trigger] builds[j]
            == own[j].build by {}
        assert(builds =~= if table.contains_key(keys[i]) {
            table[keys[i]]@
        } else if pad {
            seq![RowPtr { chunk_index: 0, row_index: 0 }]
        } else {
            Seq::empty()
        });
        if let JoinStep::GatherBuild { validity, with_other_conjunct } = step {
            let marks = bits(validity).subrange(at[i], at[i + 1]);
            assert forall|j: int| 0 <= j < marks.len() implies #[trigger] marks[j]
                == own[j].matched by {}
            assert(marks =~= Seq::new(
                (at[i + 1] - at[i]) as nat,
                |j: int| table.contains_key(keys[i]),
            ));
        }
    }
    at
}

/// What probing appends at position `k`.
proof fn lemma_appended_at(
    join: JoinHashTable,
    found: Seq<Option<Seq<RowPtr>>>,
    pad: bool,
    before: ProbeState,
    after: ProbeState,
    step: JoinStep,
    k: int,
)
    requires
        join.join_type is Inner || join.join_type is Left || (join.has_other_predicate && (
        join.join_type is Semi || join.join_type is Anti)),
        pad == (join.join_type is Left || join.join_type is Anti),
        probe_outcome(join, found, before, after, step),
        0 <= k < start(found, pad, found.len() as int),
    ensures
        ({
            let candidate = candidates(found, pad, found.len() as int)[k];
            &&& after.probe_indexs@[before.probe_indexs@.len() + k] == candidate.probe
            &&& after.build_indexs@[before.build_indexs@.len() + k] == candidate.build
            &&& step matches JoinStep::GatherBuild { validity, with_other_conjunct }
                ==> bits(validity)[k] == candidate.matched
        }),
{
    let all = candidates(found, pad, found.len() as int);
    assert(after.probe_indexs@ == before.probe_indexs@ + probe_side(all));
    assert(after.build_indexs@ == before.build_indexs@ + build_side(all));
    assert(matched_side(all)[k] == all[k].matched);
}

/// A semi join without a predicate appends each probe row whose key the table contains, an anti
/// join each other one, once and in their order; `at[i]` is the number of rows appended before the
/// probe row `i`. Nothing else changes, and the rows are the result.
pub proof fn plain_semi_and_anti_join_pick_by_key<Key>(
    join: JoinHashTable,
    table: Map<Key, Vec<RowPtr>>,
    keys: Seq<Key>,
    before: ProbeState,
    after: ProbeState,
    step: JoinStep,
) -> (at: Seq<int>)
    requires
        join.join_type is Semi || join.join_type is Anti,
        !join.has_other_predicate,
        probe_outcome(join, lookups(table, keys), before, after, step),
    ensures
        step is TakeProbe,
        after.build_indexs == before.build_indexs,
        after.row_state == before.row_state,
        at.len() == keys.len() + 1,
        at[0] == 0,
        after.probe_indexs@.len() == before.probe_indexs@.len() + at[keys.len() as int],
        forall|k: int|
            0 <= k < before.probe_indexs@.len() ==> #[trigger] after.probe_indexs@[k]
                == before.probe_indexs@[k],
        forall|i: int|
            #![trigger keys[i]]
            0 <= i < keys.len() ==> if table.contains_key(keys[i]) == (join.join_type is Semi) {
                &&& at[i + 1] == at[i] + 1
                &&& 0 <= at[i] < at[keys.len() as int]
                &&& after.probe_indexs@[before.probe_indexs@.len() + at[i]] == i as u32
            } else {
                at[i + 1] == at[i]
            },
{
    let found = lookups(table, keys);
    let semi = join.join_type is Semi;
    let n = keys.len() as int;
    let at = Seq::new((n + 1) as nat, |i: int| rows_where(found, semi, i).len() as int);
    assert forall|i: int|
        #![trigger keys[i]]
        0 <= i < n implies if table.contains_key(keys[i]) == semi {
        &&& at[i + 1] == at[i] + 1
        &&& 0 <= at[i] < at[n]
        &&& after.probe_indexs@[before.probe_indexs@.len() + at[i]] == i as u32
    } else {
        at[i + 1] == at[i]
    } by {
        lemma_picked(found, semi, i, n);
        assert(found[i] is Some == table.contains_key(keys[i]));
    }
    at
}

proof fn lemma_picked(found: Seq<Option<Seq<RowPtr>>>, present: bool, i: int, n: int)
    requires
        0 <= i < n <= found.len(),
    ensures
        rows_where(found, present, i).len() <= rows_where(found, present, n).len(),
        (found[i] is Some) == present ==> {
            &&& rows_where(found, present, i).len() < rows_where(found, present, n).len()
            &&& rows_where(found, present, n)[rows_where(found, present, i).len() as int]
                == i as u32
        },
    decreases n,
{
    if i < n - 1 {
        lemma_picked(found, present, i, n - 1);
    }
}

/// The counters after probing. A semi join with a predicate has one for each key, none of which it
/// raises; an anti join with a predicate raises each by the number of build rows of the key; a left
/// join with a predicate does the same, and raises the counter of a key that the table does not
/// contain by one. A new counter starts at zero. The other joins leave the counters alone.
pub proof fn probing_counts_the_build_rows<Key>(
    join: JoinHashTable,
    table: Map<Key, Vec<RowPtr>>,
    keys: Seq<Key>,
    before: ProbeState,
    after: ProbeState,
    step: JoinStep,
)
    requires
        join.join_type is Inner || join.join_type is Left || join.join_type is Semi
            || join.join_type is Anti,
        probe_outcome(join, lookups(table, keys), before, after, step),
    ensures
        if join.has_other_predicate && !(join.join_type is Inner) {
            &&& after.row_state@.len() == keys.len()
            &&& forall|i: int|
                #![trigger keys[i]]
                #![trigger after.row_state@[i]]
                0 <= i < keys.len() ==> after.row_state@[i] == (if i < before.row_state@.len() {
                    before.row_state@[i] as int
                } else {
                    0
                }) + (if join.join_type is Semi {
                    0
                } else if table.contains_key(keys[i]) {
                    table[keys[i]]@.len() as u32 as int
                } else if join.join_type is Left {
                    1
                } else {
                    0
                })
        } else {
            after.row_state@ == before.row_state@
        },
{
    let found = lookups(table, keys);
    if join.has_other_predicate && !(join.join_type is Inner) {
        assert forall|i: int|
            #![trigger keys[i]]
            #![trigger after.row_state@[i]]
            0 <= i < keys.len() implies after.row_state@[i] == (if i < before.row_state@.len() {
            before.row_state@[i] as int
        } else {
            0
        }) + (if join.join_type is Semi {
            0
        } else if table.contains_key(keys[i]) {
            table[keys[i]]@.len() as u32 as int
        } else if join.join_type is Left {
            1
        } else {
            0
        }) by {
            let unmatched: u32 = if join.join_type is Left {
                1
            } else {
                0
            };
            if !(join.join_type is Semi) {
                assert(after.row_state@[i] == weighed(
                    before.row_state@,
                    found,
                    unmatched,
                    found.len() as int,
                )[i]);
            }
            assert(found[i] == if table.contains_key(keys[i]) {
                Some(table[keys[i]]@)
            } else {
                None
            });
        }
    }
}

/// What follows probing: an inner join merges, and filters if it has a predicate; a left join
/// gathers the build rows; a semi or an anti join with a predicate evaluates it, unless there is no
/// candidate with a build row in the probe state.
pub proof fn probing_leads_to_its_step<Key>(
    join: JoinHashTable,
    table: Map<Key, Vec<RowPtr>>,
    keys: Seq<Key>,
    before: ProbeState,
    after: ProbeState,
    step: JoinStep,
)
    requires
        join.join_type is Inner || join.join_type is Left || join.join_type is Semi
            || join.join_type is Anti,
        probe_outcome(join, lookups(table, keys), before, after, step),
    ensures
        step is MergeThenFilter <==> join.join_type is Inner && join.has_other_predicate,
        step is Merge <==> join.join_type is Inner && !join.has_other_predicate,
        step is GatherBuild <==> join.join_type is Left,
        step matches JoinStep::GatherBuild { validity, with_other_conjunct } ==> with_other_conjunct
            == join.has_other_predicate,
        step is EvaluatePredicate || step is TakeProbe <==> join.join_type is Semi
            || join.join_type is Anti,
        step matches JoinStep::EvaluatePredicate { semi } ==> semi == (join.join_type is Semi),
        step is EvaluatePredicate <==> {
            &&& join.join_type is Semi || join.join_type is Anti
            &&& join.has_other_predicate
            &&& before.probe_indexs@.len() > 0 || exists|i: int|
                0 <= i < keys.len() && table.contains_key(#[trigger] keys[i])
                    && table[keys[i]]@.len() > 0
        },
{
    let found = lookups(table, keys);
    let n = keys.len() as int;
    if join.has_other_predicate && (join.join_type is Semi || join.join_type is Anti) {
        let semi = join.join_type is Semi;
        lemma_has_build_rows(found, !semi, n);
        assert(after.probe_indexs@.len() == before.probe_indexs@.len() + start(found, !semi, n));
        if exists|i: int|
            0 <= i < n && (#[trigger] found[i] matches Some(rows) && rows.len() > 0) {
            let i = choose|i: int|
                0 <= i < n && (#[trigger] found[i] matches Some(rows) && rows.len() > 0);
            assert(0 <= i < keys.len() && table.contains_key(keys[i]) && table[keys[i]]@.len() > 0);
        }
        if exists|i: int|
            0 <= i < keys.len() && table.contains_key(#[trigger] keys[i])
                && table[keys[i]]@.len() > 0 {
            let i = choose|i: int|
                0 <= i < keys.len() && table.contains_key(#[trigger] keys[i])
                    && table[keys[i]]@.len() > 0;
            assert(found[i] == Some(table[keys[i]]@));
        }
    }
}

/// There are more candidates than placeholders exactly if some key has a build row.
proof fn lemma_has_build_rows(found: Seq<Option<Seq<RowPtr>>>, pad: bool, n: int)
    requires
        0 <= n <= found.len(),
    ensures
        start(found, pad, n) >= (if pad {
            rows_where(found, false, n).len()
        } else {
            0
        }),
        start(found, pad, n) > (if pad {
            rows_where(found, false, n).len()
        } else {
            0
        }) <==> exists|i: int|
            0 <= i < n && (#[trigger] found[i] matches Some(rows) && rows.len() > 0),
    decreases n,
{
    if n > 0 {
        lemma_has_build_rows(found, pad, n - 1);
        if exists|i: int|
            0 <= i < n - 1 && (#[trigger] found[i] matches Some(rows) && rows.len() > 0) {
            let i = choose|i: int|
                0 <= i < n - 1 && (#[trigger] found[i] matches Some(rows) && rows.len() > 0);
            assert(0 <= i < n && (found[i] matches Some(rows) && rows.len() > 0));
        }
        if found[n - 1] matches Some(rows) && rows.len() > 0 {
            assert(0 <= n - 1 < n && (found[n - 1] matches Some(rows) && rows.len() > 0));
        }
    }
}

/// An inner join on a cleared state has a joined row for each probe row `i` and each build row `j`
/// that the table has for its key: the one at `k`.
pub proof fn inner_join_joins_equal_keys<Key>(
    join: JoinHashTable,
    table: Map<Key, Vec<RowPtr>>,
    keys: Seq<Key>,
    before: ProbeState,
    after: ProbeState,
    step: JoinStep,
    i: int,
    j: int,
) -> (k: int)
    requires
        join.join_type is Inner,
        before.probe_indexs@.len() == 0,
        before.build_indexs@.len() == 0,
        probe_outcome(join, lookups(table, keys), before, after, step),
        0 <= i < keys.len(),
        table.contains_key(keys[i]),
        0 <= j < table[keys[i]]@.len(),
    ensures
        0 <= k < after.probe_indexs@.len(),
        after.probe_indexs@[k] == i as u32,
        after.build_indexs@[k] == table[keys[i]]@[j],
{
    let at = probing_lists_the_matches_of_every_key(join, table, keys, before, after, step);
    assert(after.probe_indexs@.subrange(at[i], at[i + 1])[j] == i as u32);
    assert(after.build_indexs@.subrange(at[i], at[i + 1])[j] == table[keys[i]]@[j]);
    at[i] + j
}

/// An inner join on a cleared state joins nothing else: what it has at `k` is a probe row beside a
/// build row, number `j`, that the table has for its key.
pub proof fn inner_join_joins_only_equal_keys<Key>(
    join: JoinHashTable,
    table: Map<Key, Vec<RowPtr>>,
    keys: Seq<Key>,
    before: ProbeState,
    after: ProbeState,
    step: JoinStep,
    k: int,
) -> (j: int)
    requires
        join.join_type is Inner,
        before.probe_indexs@.len() == 0,
        before.build_indexs@.len() == 0,
        keys.len() <= 0x1_0000_0000,
        probe_outcome(join, lookups(table, keys), before, after, step),
        0 <= k < after.probe_indexs@.len(),
    ensures
        after.probe_indexs@.len() == after.build_indexs@.len(),
        after.probe_indexs@[k] < keys.len(),
        table.contains_key(keys[after.probe_indexs@[k] as int]),
        0 <= j < table[keys[after.probe_indexs@[k] as int]]@.len(),
        after.build_indexs@[k] == table[keys[after.probe_indexs@[k] as int]]@[j],
{
    let at = probing_lists_the_matches_of_every_key(join, table, keys, before, after, step);
    let i = lemma_segment_of(at, keys.len() as int, k);
    assert(at[i + 1] == at[i] + (if table.contains_key(keys[i]) {
        table[keys[i]]@.len() as int
    } else {
        0
    }));
    let j = k - at[i];
    assert(after.probe_indexs@.subrange(at[i], at[i + 1])[j] == i as u32);
    assert(after.build_indexs@.subrange(at[i], at[i + 1])[j] == after.build_indexs@[k]);
    j
}

/// The row that a position belongs to.
proof fn lemma_segment_of(at: Seq<int>, n: int, k: int) -> (i: int)
    requires
        0 <= n < at.len(),
        at[0] <= k < at[n],
    ensures
        0 <= i < n,
        at[i] <= k < at[i + 1],
    decreases n,
{
    if k < at[n - 1] {
        lemma_segment_of(at, n - 1, k)
    } else {
        n - 1
    }
}

/// A semi join goes through the candidates one by one, with the counters `trace[k]` before the
/// candidate `k`. A candidate is kept exactly if the engine's column has a set bit for it (or is
/// constantly true) and the counter of its row is zero, which it then sets to one. What the column
/// holds beyond the candidates is kept as it is.
pub proof fn semi_join_filters_by_the_answered_bits(
    column: PredicateColumn,
    num_rows: usize,
    before: ProbeState,
    after: ProbeState,
    next: JoinStep,
) -> (trace: Seq<Seq<u32>>)
    requires
        answers(
            JoinStep::EvaluatePredicate { semi: true },
            JoinEvent::Predicate { column, num_rows },
            before,
        ),
        resume_outcome(
            JoinStep::EvaluatePredicate { semi: true },
            JoinEvent::Predicate { column, num_rows },
            before,
            after,
            next,
        ),
    ensures
        after.probe_indexs == before.probe_indexs,
        after.build_indexs == before.build_indexs,
        next is TakeProbeFiltered,
        trace.len() == before.probe_indexs@.len() + 1,
        trace[0] == before.row_state@,
        trace[before.probe_indexs@.len() as int] == after.row_state@,
        ({
            let kept = bits(next->TakeProbeFiltered_0);
            let accepted = |k: int|
                match column {
                    PredicateColumn::Const(value) => value,
                    PredicateColumn::Values(values) => bits(values)[k],
                };
            &&& kept.len() == match column {
                PredicateColumn::Const(value) => num_rows as nat,
                PredicateColumn::Values(values) => bits(values).len(),
            }
            &&& before.probe_indexs@.len() <= kept.len()
            &&& forall|k: int|
                before.probe_indexs@.len() <= k < kept.len() ==> #[trigger] kept[k] == accepted(k)
            &&& forall|k: int|
                0 <= k < before.probe_indexs@.len() ==> {
                    let row = #[trigger] before.probe_indexs@[k] as int;
                    &&& row < before.row_state@.len()
                    &&& kept[k] == (accepted(k) && trace[k][row] == 0)
                    &&& trace[k + 1] == if kept[k] {
                        trace[k].update(row, 1)
                    } else {
                        trace[k]
                    }
                }
        }),
{
    let given = verdicts(column, num_rows as nat);
    let probe = before.probe_indexs@;
    let state = before.row_state@;
    let m = probe.len() as int;
    let trace = Seq::new(
        (m + 1) as nat,
        |k: int| Seq::new(state.len(), |row: int| semi_counter(given, probe, state, row, k)),
    );
    assert(trace[0] =~= state);
    assert forall|row: int| 0 <= row < state.len() implies after.row_state@[row]
        == trace[m][row] by {}
    assert(trace[m] =~= after.row_state@);
    assert forall|k: int| 0 <= k < m implies {
        let row = #[trigger] probe[k] as int;
        &&& row < state.len()
        &&& semi_bit(given, probe, state, k) == (given[k] && trace[k][row] == 0)
        &&& trace[k + 1] == if given[k] && trace[k][row] == 0 {
            trace[k].update(row, 1)
        } else {
            trace[k]
        }
    } by {
        lemma_semi_transition(given, probe, state, k);
        let row = probe[k] as int;
        assert forall|r: int| 0 <= r < state.len() implies {
            &&& 0 <= #[trigger] state[r]
            &&& trace[k][r] == semi_counter(given, probe, state, r, k)
            &&& trace[k + 1][r] == semi_counter(given, probe, state, r, k + 1)
        } by {}
        assert(trace[k + 1] =~= if given[k] && trace[k][row] == 0 {
            trace[k].update(row, 1)
        } else {
            trace[k]
        });
    }
    trace
}

/// An anti join goes through the candidates one by one, with the counters `trace[k]` before the
/// candidate `k`. A candidate is kept if the counter of its row is zero, or is one and the engine's
/// column has an unset bit for the candidate (or is constantly false). A counter that is not zero
/// falls by one with each candidate that is not accepted, and with the last one in any case.
pub proof fn anti_join_filters_by_the_answered_bits(
    column: PredicateColumn,
    num_rows: usize,
    before: ProbeState,
    after: ProbeState,
    next: JoinStep,
) -> (trace: Seq<Seq<u32>>)
    requires
        answers(
            JoinStep::EvaluatePredicate { semi: false },
            JoinEvent::Predicate { column, num_rows },
            before,
        ),
        resume_outcome(
            JoinStep::EvaluatePredicate { semi: false },
            JoinEvent::Predicate { column, num_rows },
            before,
            after,
            next,
        ),
    ensures
        after.probe_indexs == before.probe_indexs,
        after.build_indexs == before.build_indexs,
        next is TakeProbeFiltered,
        trace.len() == before.probe_indexs@.len() + 1,
        trace[0] == before.row_state@,
        trace[before.probe_indexs@.len() as int] == after.row_state@,
        ({
            let kept = bits(next->TakeProbeFiltered_0);
            let accepted = |k: int|
                match column {
                    PredicateColumn::Const(value) => value,
                    PredicateColumn::Values(values) => bits(values)[k],
                };
            &&& kept.len() == match column {
                PredicateColumn::Const(value) => num_rows as nat,
                PredicateColumn::Values(values) => bits(values).len(),
            }
            &&& before.probe_indexs@.len() <= kept.len()
            &&& forall|k: int|
                before.probe_indexs@.len() <= k < kept.len() ==> #[trigger] kept[k] == accepted(k)
            &&& forall|k: int|
                0 <= k < before.probe_indexs@.len() ==> {
                    let row = #[trigger] before.probe_indexs@[k] as int;
                    let count = trace[k][row];
                    &&& row < before.row_state@.len()
                    &&& kept[k] == (count == 0 || (count == 1 && !accepted(k)))
                    &&& trace[k + 1] == if count == 1 || (count > 1 && !accepted(k)) {
                        trace[k].update(row, (count - 1) as u32)
                    } else {
                        trace[k]
                    }
                }
        }),
{
    let given = verdicts(column, num_rows as nat);
    let probe = before.probe_indexs@;
    let state = before.row_state@;
    let m = probe.len() as int;
    let trace = Seq::new(
        (m + 1) as nat,
        |k: int|
            Seq::new(state.len(), |row: int| anti_counter(given, probe, state, row, k) as u32),
    );
    assert forall|row: int| 0 <= row < state.len() implies after.row_state@[row]
        == trace[m][row] by {}
    assert(trace[0] =~= state) by {
        assert forall|row: int| 0 <= row < state.len() implies #[trigger] trace[0][row]
            == state[row] by {
            assert(!settled_before(given, probe, row, state[row], 0));
        }
    }
    assert(trace[m] =~= after.row_state@);
    assert forall|k: int| 0 <= k < m implies {
        let row = #[trigger] probe[k] as int;
        let count = trace[k][row];
        &&& row < state.len()
        &&& anti_bit(given, probe, state, k) == (count == 0 || (count == 1 && !given[k]))
        &&& trace[k + 1] == if count == 1 || (count > 1 && !given[k]) {
            trace[k].update(row, (count - 1) as u32)
        } else {
            trace[k]
        }
    } by {
        lemma_anti_transition(given, probe, state, k);
        let row = probe[k] as int;
        let count = trace[k][row];
        assert forall|r: int| 0 <= r < state.len() implies {
            &&& 0 <= #[trigger] state[r]
            &&& trace[k][r] == anti_counter(given, probe, state, r, k)
            &&& trace[k + 1][r] == anti_counter(given, probe, state, r, k + 1)
        } by {}
        assert(trace[k + 1] =~= if count == 1 || (count > 1 && !given[k]) {
            trace[k].update(row, (count - 1) as u32)
        } else {
            trace[k]
        });
    }
    trace
}

/// After the build rows are gathered, each build column is null where it was null itself and where
/// the validity says that there is no build row. The probe state stays as it is.
pub proof fn gathered_columns_are_null_where_unmatched(
    validity: Bitmap,
    with_other_conjunct: bool,
    columns: Vec<ColumnNulls>,
    before: ProbeState,
    after: ProbeState,
    next: JoinStep,
) -> (nulls: Seq<ColumnNulls>)
    requires
        answers(
            JoinStep::GatherBuild { validity, with_other_conjunct },
            JoinEvent::BuildColumns(columns),
            before,
        ),
        resume_outcome(
            JoinStep::GatherBuild { validity, with_other_conjunct },
            JoinEvent::BuildColumns(columns),
            before,
            after,
            next,
        ),
    ensures
        after == before,
        if with_other_conjunct {
            next matches JoinStep::EvaluateNullable(shown) && nulls == shown@
        } else {
            next matches JoinStep::MergeNullable(shown) && nulls == shown@
        },
        nulls.len() == columns@.len(),
        forall|c: int|
            #![trigger nulls[c]]
            #![trigger columns@[c]]
            0 <= c < columns@.len() ==> match columns@[c] {
                ColumnNulls::Null => nulls[c] is Null,
                ColumnNulls::Nullable(own) => {
                    &&& nulls[c] is Nullable
                    &&& bits(own).len() == bits(validity).len()
                    &&& bits(nulls[c]->Nullable_0) =~= Seq::new(
                        bits(validity).len(),
                        |k: int| bits(own)[k] && bits(validity)[k],
                    )
                },
                ColumnNulls::Required => {
                    &&& nulls[c] is Nullable
                    &&& bits(nulls[c]->Nullable_0) =~= bits(validity)
                },
            },
{
    let nulls = match next {
        JoinStep::EvaluateNullable(shown) => shown@,
        JoinStep::MergeNullable(shown) => shown@,
        _ => Seq::empty(),
    };
    lemma_null_columns(nulls, columns@, bits(validity));
    nulls
}

proof fn lemma_null_columns(
    nulls: Seq<ColumnNulls>,
    columns: Seq<ColumnNulls>,
    validity: Seq<bool>,
)
    requires
        columns_are(nulls, columns, validity),
        columns_fit(columns, validity),
    ensures
        nulls.len() == columns.len(),
        forall|c: int|
            #![trigger nulls[c]]
            #![trigger columns[c]]
            0 <= c < columns.len() ==> match columns[c] {
                ColumnNulls::Null => nulls[c] is Null,
                ColumnNulls::Nullable(own) => {
                    &&& nulls[c] is Nullable
                    &&& bits(own).len() == validity.len()
                    &&& bits(nulls[c]->Nullable_0) =~= Seq::new(
                        validity.len(),
                        |k: int| bits(own)[k] && validity[k],
                    )
                },
                ColumnNulls::Required => {
                    &&& nulls[c] is Nullable
                    &&& bits(nulls[c]->Nullable_0) =~= validity
                },
            },
{
    assert forall|c: int|
        #![trigger nulls[c]]
        #![trigger columns[c]]
        0 <= c < columns.len() implies match columns[c] {
        ColumnNulls::Null => nulls[c] is Null,
        ColumnNulls::Nullable(own) => {
            &&& nulls[c] is Nullable
            &&& bits(own).len() == validity.len()
            &&& bits(nulls[c]->Nullable_0) =~= Seq::new(
                validity.len(),
                |k: int| bits(own)[k] && validity[k],
            )
        },
        ColumnNulls::Required => {
            &&& nulls[c] is Nullable
            &&& bits(nulls[c]->Nullable_0) =~= validity
        },
    } by {
        assert(nulls[c]@ == with_validity(columns[c]@, validity));
        assert(validity_fits(columns[c]@, validity));
    }
}

/// A left join keeps everything as it is if the engine's column is constantly true or has no unset
/// bit. Else it goes through the candidates one by one, with the counters `trace[k]` before the
/// candidate `k`: a candidate is kept if its bit is set or if the counter of its row is down to
/// one, and a higher counter falls by one with each candidate whose bit is unset. The build columns
/// become null where the bit is unset.
pub proof fn left_join_filters_by_the_answered_bits(
    columns: Vec<ColumnNulls>,
    column: PredicateColumn,
    num_rows: usize,
    before: ProbeState,
    after: ProbeState,
    next: JoinStep,
) -> (trace: Seq<Seq<u32>>)
    requires
        answers(
            JoinStep::EvaluateNullable(columns),
            JoinEvent::Predicate { column, num_rows },
            before,
        ),
        resume_outcome(
            JoinStep::EvaluateNullable(columns),
            JoinEvent::Predicate { column, num_rows },
            before,
            after,
            next,
        ),
    ensures
        after.probe_indexs == before.probe_indexs,
        after.build_indexs == before.build_indexs,
        next is MergeNullable <==> match column {
            PredicateColumn::Const(value) => value,
            PredicateColumn::Values(values) => forall|k: int|
                0 <= k < bits(values).len() ==> bits(values)[k],
        },
        next is MergeNullable ==> next == JoinStep::MergeNullable(columns) && after == before,
        next is MergeNullable || next is MergeNullableFiltered,
        next is MergeNullableFiltered ==> {
            let nulls = next->MergeNullableFiltered_0@;
            let kept = bits(next->MergeNullableFiltered_1);
            let accepted = |k: int|
                match column {
                    PredicateColumn::Const(value) => value,
                    PredicateColumn::Values(values) => bits(values)[k],
                };
            &&& kept.len() == match column {
                PredicateColumn::Const(value) => num_rows as nat,
                PredicateColumn::Values(values) => bits(values).len(),
            }
            &&& before.probe_indexs@.len() <= kept.len()
            &&& forall|k: int|
                before.probe_indexs@.len() <= k < kept.len() ==> #[trigger] kept[k] == accepted(k)
            &&& trace.len() == before.probe_indexs@.len() + 1
            &&& trace[0] == before.row_state@
            &&& trace[before.probe_indexs@.len() as int] == after.row_state@
            &&& forall|k: int|
                0 <= k < before.probe_indexs@.len() ==> {
                    let row = #[trigger] before.probe_indexs@[k] as int;
                    let count = trace[k][row];
                    &&& row < before.row_state@.len()
                    &&& kept[k] == (accepted(k) || count <= 1)
                    &&& trace[k + 1] == if count > 1 && !accepted(k) {
                        trace[k].update(row, (count - 1) as u32)
                    } else {
                        trace[k]
                    }
                }
            &&& nulls.len() == columns@.len()
            &&& forall|c: int|
                #![trigger nulls[c]]
                #![trigger columns@[c]]
                0 <= c < columns@.len() ==> match columns@[c] {
                    ColumnNulls::Null => nulls[c] is Null,
                    ColumnNulls::Nullable(own) => {
                        &&& nulls[c] is Nullable
                        &&& bits(own).len() == kept.len()
                        &&& bits(nulls[c]->Nullable_0) =~= Seq::new(
                            kept.len(),
                            |k: int| bits(own)[k] && accepted(k),
                        )
                    },
                    ColumnNulls::Required => {
                        &&& nulls[c] is Nullable
                        &&& bits(nulls[c]->Nullable_0) =~= Seq::new(
                            kept.len(),
                            |k: int| accepted(k),
                        )
                    },
                }
        },
{
    let given = verdicts(column, num_rows as nat);
    let probe = before.probe_indexs@;
    let state = before.row_state@;
    let m = probe.len() as int;
    let trace = Seq::new(
        (m + 1) as nat,
        |k: int|
            Seq::new(state.len(), |row: int| left_counter(given, probe, state, row, k) as u32),
    );
    if next is MergeNullableFiltered {
        lemma_null_columns(next->MergeNullableFiltered_0@, columns@, given);
        assert(given =~= Seq::new(
            given.len(),
            |k: int|
                match column {
                    PredicateColumn::Const(value) => value,
                    PredicateColumn::Values(values) => bits(values)[k],
                },
        ));
        assert forall|row: int| 0 <= row < state.len() implies after.row_state@[row]
            == trace[m][row] by {}
        assert(trace[0] =~= state);
        assert(trace[m] =~= after.row_state@);
        assert forall|k: int| 0 <= k < m implies {
            let row = #[trigger] probe[k] as int;
            let count = trace[k][row];
            &&& row < state.len()
            &&& left_bit(given, probe, state, k) == (given[k] || count <= 1)
            &&& trace[k + 1] == if count > 1 && !given[k] {
                trace[k].update(row, (count - 1) as u32)
            } else {
                trace[k]
            }
        } by {
            lemma_left_transition(given, probe, state, k);
            let row = probe[k] as int;
            let count = trace[k][row];
            assert forall|r: int| 0 <= r < state.len() implies {
                &&& 0 <= #[trigger] state[r]
            &&& trace[k][r] == left_counter(given, probe, state, r, k)
                &&& trace[k + 1][r] == left_counter(given, probe, state, r, k + 1)
            } by {}
            assert(trace[k + 1] =~= if count > 1 && !given[k] {
                trace[k].update(row, (count - 1) as u32)
            } else {
                trace[k]
            });
        }
    }
    trace
}

/// The probe row of a candidate, and the candidates that it stands among.
proof fn lemma_row_of_candidate(found: Seq<Option<Seq<RowPtr>>>, pad: bool, n: int, k: int)
    requires
        0 <= n <= found.len() <= 0x1_0000_0000,
        0 <= k < start(found, pad, n),
    ensures
        ({
            let i = candidates(found, pad, n)[k].probe as int;
            &&& 0 <= i < n
            &&& start(found, pad, i) <= k < start(found, pad, i + 1)
            &&& candidates(found, pad, n)[k].matched == (found[i] is Some)
        }),
    decreases n,
{
    if n > 0 {
        if k < start(found, pad, n - 1) {
            lemma_row_of_candidate(found, pad, n - 1, k);
            assert(candidates(found, pad, n)[k] == candidates(found, pad, n - 1)[k]);
        } else {
            assert(candidates(found, pad, n)[k] == row_candidates(found[n - 1], n - 1, pad)[k
                - start(found, pad, n - 1)]);
        }
    }
}

/// Candidates come in the order of their probe rows.
proof fn lemma_candidates_in_order(
    found: Seq<Option<Seq<RowPtr>>>,
    pad: bool,
    k: int,
    l: int,
)
    requires
        found.len() <= 0x1_0000_0000,
        0 <= k <= l < start(found, pad, found.len() as int),
    ensures
        candidates(found, pad, found.len() as int)[k].probe <= candidates(
            found,
            pad,
            found.len() as int,
        )[l].probe,
{
    let n = found.len() as int;
    lemma_row_of_candidate(found, pad, n, k);
    lemma_row_of_candidate(found, pad, n, l);
    let i = candidates(found, pad, n)[k].probe as int;
    let j = candidates(found, pad, n)[l].probe as int;
    if j < i {
        lemma_starts_in_order(found, pad, j + 1, i);
    }
}

proof fn lemma_starts_in_order(found: Seq<Option<Seq<RowPtr>>>, pad: bool, i: int, j: int)
    requires
        0 <= i <= j <= found.len(),
    ensures
        start(found, pad, i) <= start(found, pad, j),
    decreases j - i,
{
    if i < j {
        lemma_starts_in_order(found, pad, i, j - 1);
    }
}

/// A semi join with a predicate on a cleared state returns the input row `i` exactly if the
/// engine's column has a set bit for one of its candidates (or is constantly true and it has one).
pub proof fn semi_join_returns_rows_with_an_accepted_candidate<Key>(
    join: JoinHashTable,
    table: Map<Key, Vec<RowPtr>>,
    keys: Seq<Key>,
    before: ProbeState,
    probed: ProbeState,
    step: JoinStep,
    column: PredicateColumn,
    num_rows: usize,
    after: ProbeState,
    next: JoinStep,
    i: int,
)
    requires
        join.join_type is Semi,
        join.has_other_predicate,
        before.probe_indexs@.len() == 0,
        before.build_indexs@.len() == 0,
        before.row_state@.len() == 0,
        keys.len() <= 0x1_0000_0000,
        probe_outcome(join, lookups(table, keys), before, probed, step),
        step is EvaluatePredicate,
        answers(step, JoinEvent::Predicate { column, num_rows }, probed),
        resume_outcome(step, JoinEvent::Predicate { column, num_rows }, probed, after, next),
        0 <= i < keys.len(),
    ensures
        next is TakeProbeFiltered,
        after.probe_indexs@ == probed.probe_indexs@,
        ({
            let probe = probed.probe_indexs@;
            let kept = bits(next->TakeProbeFiltered_0);
            let accepted = Seq::new(
                probe.len(),
                |k: int|
                    match column {
                        PredicateColumn::Const(value) => value,
                        PredicateColumn::Values(values) => bits(values)[k],
                    },
            );
            (exists|k: int| 0 <= k < probe.len() && #[trigger] probe[k] == i && kept[k]) <==> (
            exists|k: int| 0 <= k < probe.len() && #[trigger] probe[k] == i && accepted[k])
        }),
{
    let found = lookups(table, keys);
    let probe = probed.probe_indexs@;
    let given = verdicts(column, num_rows as nat);
    let kept = bits(next->TakeProbeFiltered_0);
    let accepted = Seq::new(
        probe.len(),
        |k: int|
            match column {
                PredicateColumn::Const(value) => value,
                PredicateColumn::Values(values) => bits(values)[k],
            },
    );
    assert(probe =~= probe_side(candidates(found, false, found.len() as int)));
    assert(accepted =~= given.take(probe.len() as int));
    assert forall|k: int| 0 <= k < probe.len() implies #[trigger] kept[k] == semi_bit(
        accepted,
        probe,
        probed.row_state@,
        k,
    ) by {
        assert(kept[k] == semi_bit(given, probe, probed.row_state@, k));
        lemma_accepted_in_prefix(given, probe, probe[k] as int, k);
    }
    assert forall|row: int| 0 <= row < probed.row_state@.len() implies probed.row_state@[row]
        == 0 by {}
    lemma_first_is_kept(accepted, probe, probed.row_state@, kept, i);
}

/// A semi join with a predicate on a cleared state returns no row twice, and the rows in their
/// order.
pub proof fn semi_join_returns_rows_once_and_in_order<Key>(
    join: JoinHashTable,
    table: Map<Key, Vec<RowPtr>>,
    keys: Seq<Key>,
    before: ProbeState,
    probed: ProbeState,
    step: JoinStep,
    column: PredicateColumn,
    num_rows: usize,
    after: ProbeState,
    next: JoinStep,
    k: int,
    l: int,
)
    requires
        join.join_type is Semi,
        join.has_other_predicate,
        before.probe_indexs@.len() == 0,
        before.build_indexs@.len() == 0,
        before.row_state@.len() == 0,
        keys.len() <= 0x1_0000_0000,
        probe_outcome(join, lookups(table, keys), before, probed, step),
        step is EvaluatePredicate,
        answers(step, JoinEvent::Predicate { column, num_rows }, probed),
        resume_outcome(step, JoinEvent::Predicate { column, num_rows }, probed, after, next),
        0 <= k < l < probed.probe_indexs@.len(),
        bits(next->TakeProbeFiltered_0)[k],
        bits(next->TakeProbeFiltered_0)[l],
    ensures
        probed.probe_indexs@[k] < probed.probe_indexs@[l],
{
    let found = lookups(table, keys);
    let all = candidates(found, false, found.len() as int);
    let probe = probed.probe_indexs@;
    let given = verdicts(column, num_rows as nat);
    let kept = bits(next->TakeProbeFiltered_0);
    assert(probe =~= probe_side(all));
    assert(kept[k] == semi_bit(given, probe, probed.row_state@, k));
    assert(kept[l] == semi_bit(given, probe, probed.row_state@, l));
    lemma_candidates_in_order(found, false, k, l);
    assert(probe[k] == all[k].probe && probe[l] == all[l].probe);
    if probe[k] == probe[l] {
        assert(accepted_before(given, probe, probe[l] as int, l));
    }
}

proof fn lemma_accepted_in_prefix(given: Seq<bool>, probe: Seq<u32>, row: int, k: int)
    requires
        0 <= k <= probe.len() <= given.len(),
    ensures
        accepted_before(given, probe, row, k) == accepted_before(
            given.take(probe.len() as int),
            probe,
            row,
            k,
        ),
{
    let prefix = given.take(probe.len() as int);
    if accepted_before(given, probe, row, k) {
        let j = choose|j: int| 0 <= j < k && #[trigger] probe[j] == row && given[j];
        assert(0 <= j < k && probe[j] == row && prefix[j]);
    }
    if accepted_before(prefix, probe, row, k) {
        let j = choose|j: int| 0 <= j < k && #[trigger] probe[j] == row && prefix[j];
        assert(0 <= j < k && probe[j] == row && given[j]);
    }
}

/// With counters at zero, a row with an accepted candidate is kept, and no other.
proof fn lemma_first_is_kept(
    given: Seq<bool>,
    probe: Seq<u32>,
    state: Seq<u32>,
    kept: Seq<bool>,
    i: int,
)
    requires
        fits(given, probe, state),
        forall|row: int| 0 <= row < state.len() ==> state[row] == 0,
        forall|k: int|
            0 <= k < probe.len() ==> #[trigger] kept[k] == semi_bit(given, probe, state, k),
    ensures
        (exists|k: int| 0 <= k < probe.len() && #[trigger] probe[k] == i && kept[k]) <==> (exists|
            k: int,
        |
            0 <= k < probe.len() && #[trigger] probe[k] == i && given[k]),
{
    if exists|k: int| 0 <= k < probe.len() && #[trigger] probe[k] == i && given[k] {
        let k = choose|k: int| 0 <= k < probe.len() && #[trigger] probe[k] == i && given[k];
        let j = lemma_first_accepted(given, probe, i, k);
        assert(kept[j] == semi_bit(given, probe, state, j));
        assert(0 <= j < probe.len() && probe[j] == i && kept[j]);
    }
    if exists|k: int| 0 <= k < probe.len() && #[trigger] probe[k] == i && kept[k] {
        let k = choose|k: int| 0 <= k < probe.len() && #[trigger] probe[k] == i && kept[k];
        assert(kept[k] == semi_bit(given, probe, state, k));
        assert(0 <= k < probe.len() && probe[k] == i && given[k]);
    }
}

/// On counters that count the candidates, an anti join keeps the last candidate of a row that has
/// no accepted one, and no other.
proof fn lemma_anti_bit_at(
    found: Seq<Option<Seq<RowPtr>>>,
    given: Seq<bool>,
    state: Seq<u32>,
    i: int,
    k: int,
)
    requires
        0 <= i < found.len() <= 0x1_0000_0000,
        found[i] matches Some(rows) ==> 0 < rows.len() <= u32::MAX,
        given.len() >= start(found, true, found.len() as int),
        counts_candidates(found, 0, state),
        start(found, true, i) <= k < start(found, true, i + 1),
    ensures
        anti_bit(given, probe_side(candidates(found, true, found.len() as int)), state, k) <==> k
            == start(found, true, i + 1) - 1 && (found[i] is None || !any_accepted(
            given,
            start(found, true, i),
            start(found, true, i + 1),
        )),
{
    let n = found.len() as int;
    let probe = probe_side(candidates(found, true, n));
    let lo = start(found, true, i);
    let hi = start(found, true, i + 1);
    lemma_segment(found, true, i);
    lemma_candidates_at(found, true, i, n);
    lemma_within_segment(given, probe, i, lo, k);
    let count = state[i];
    assert(count == row_weight(found[i], 0));
    assert(probe[k] == i);
    if found[i] is Some {
        assert(count == hi - lo);
        assert(!settled_before(given, probe, i, count, k)) by {
            if settled_before(given, probe, i, count, k) {
                let j = choose|j: int|
                    0 <= j < k && #[trigger] probe[j] == i && rejected_before(given, probe, i, j)
                        >= count - 1;
                assert(lo <= j);
                lemma_within_segment(given, probe, i, lo, j);
            }
        }
        if any_accepted(given, lo, hi) {
            let j = choose|j: int| lo <= j < hi && #[trigger] given[j];
            assert(j < k ==> lo <= j < k && given[j]);
        }
        if any_accepted(given, lo, k) {
            let j = choose|j: int| lo <= j < k && #[trigger] given[j];
            assert(lo <= j < hi && given[j]);
        }
        if given[k] {
            assert(lo <= k < hi && given[k]);
        }
    }
}

/// What an anti join with a predicate does with the candidate `k`.
proof fn lemma_anti_kept<Key>(
    join: JoinHashTable,
    table: Map<Key, Vec<RowPtr>>,
    keys: Seq<Key>,
    before: ProbeState,
    probed: ProbeState,
    step: JoinStep,
    column: PredicateColumn,
    num_rows: usize,
    after: ProbeState,
    next: JoinStep,
    k: int,
)
    requires
        join.join_type is Anti,
        join.has_other_predicate,
        before.probe_indexs@.len() == 0,
        before.build_indexs@.len() == 0,
        before.row_state@.len() == 0,
        keys.len() <= 0x1_0000_0000,
        forall|key: Key| #[trigger]
            table.contains_key(key) ==> 0 < table[key]@.len() <= u32::MAX,
        probe_outcome(join, lookups(table, keys), before, probed, step),
        step is EvaluatePredicate,
        answers(step, JoinEvent::Predicate { column, num_rows }, probed),
        resume_outcome(step, JoinEvent::Predicate { column, num_rows }, probed, after, next),
        0 <= k < probed.probe_indexs@.len(),
    ensures
        ({
            let found = lookups(table, keys);
            let given = verdicts(column, num_rows as nat);
            let i = probed.probe_indexs@[k] as int;
            &&& probed.probe_indexs@ == probe_side(candidates(found, true, found.len() as int))
            &&& probed.probe_indexs@.len() <= given.len()
            &&& 0 <= i < keys.len()
            &&& start(found, true, i) <= k < start(found, true, i + 1)
            &&& bits(next->TakeProbeFiltered_0)[k] <==> k == start(found, true, i + 1) - 1 && (
            !table.contains_key(keys[i]) || !any_accepted(
                given,
                start(found, true, i),
                start(found, true, i + 1),
            ))
        }),
{
    let found = lookups(table, keys);
    let n = found.len() as int;
    let all = candidates(found, true, n);
    let probe = probed.probe_indexs@;
    let state = probed.row_state@;
    let given = verdicts(column, num_rows as nat);
    assert(probe =~= probe_side(all));
    probing_counts_the_build_rows(join, table, keys, before, probed, step);
    assert forall|i: int| 0 <= i < n implies #[trigger] state[i] == row_weight(found[i], 0) by {
        assert(found[i] == if table.contains_key(keys[i]) {
            Some(table[keys[i]]@)
        } else {
            None
        });
    }
    lemma_row_of_candidate(found, true, n, k);
    let i = all[k].probe as int;
    assert(table.contains_key(keys[i]) ==> 0 < table[keys[i]]@.len() <= u32::MAX);
    lemma_anti_bit_at(found, given, state, i, k);
    assert(bits(next->TakeProbeFiltered_0)[k] == anti_bit(given, probe, state, k));
}

/// An anti join with a predicate on a cleared state returns the input row `i` exactly if the table
/// does not contain its key or the engine's column has an unset bit for each of its candidates (or
/// is constantly false).
pub proof fn anti_join_returns_rows_without_an_accepted_candidate<Key>(
    join: JoinHashTable,
    table: Map<Key, Vec<RowPtr>>,
    keys: Seq<Key>,
    before: ProbeState,
    probed: ProbeState,
    step: JoinStep,
    column: PredicateColumn,
    num_rows: usize,
    after: ProbeState,
    next: JoinStep,
    i: int,
)
    requires
        join.join_type is Anti,
        join.has_other_predicate,
        before.probe_indexs@.len() == 0,
        before.build_indexs@.len() == 0,
        before.row_state@.len() == 0,
        keys.len() <= 0x1_0000_0000,
        forall|key: Key| #[trigger]
            table.contains_key(key) ==> 0 < table[key]@.len() <= u32::MAX,
        probe_outcome(join, lookups(table, keys), before, probed, step),
        step is EvaluatePredicate,
        answers(step, JoinEvent::Predicate { column, num_rows }, probed),
        resume_outcome(step, JoinEvent::Predicate { column, num_rows }, probed, after, next),
        0 <= i < keys.len(),
    ensures
        next is TakeProbeFiltered,
        after.probe_indexs@ == probed.probe_indexs@,
        ({
            let probe = probed.probe_indexs@;
            let kept = bits(next->TakeProbeFiltered_0);
            let accepted = Seq::new(
                probe.len(),
                |k: int|
                    match column {
                        PredicateColumn::Const(value) => value,
                        PredicateColumn::Values(values) => bits(values)[k],
                    },
            );
            (exists|k: int| 0 <= k < probe.len() && #[trigger] probe[k] == i && kept[k])
                <==> !table.contains_key(keys[i]) || !(exists|k: int|
                0 <= k < probe.len() && #[trigger] probe[k] == i && accepted[k])
        }),
{
    let found = lookups(table, keys);
    let n = found.len() as int;
    let probe = probed.probe_indexs@;
    let given = verdicts(column, num_rows as nat);
    let kept = bits(next->TakeProbeFiltered_0);
    let accepted = Seq::new(
        probe.len(),
        |k: int|
            match column {
                PredicateColumn::Const(value) => value,
                PredicateColumn::Values(values) => bits(values)[k],
            },
    );
    let lo = start(found, true, i);
    let hi = start(found, true, i + 1);
    assert(probe =~= probe_side(candidates(found, true, n)));
    assert(found[i] is Some == table.contains_key(keys[i]));
    assert(table.contains_key(keys[i]) ==> 0 < table[keys[i]]@.len() <= u32::MAX);
    lemma_candidates_at(found, true, i, n);
    lemma_segment(found, true, i);
    assert(lo < hi);
    assert(probe[hi - 1] == i);
    lemma_anti_kept(
        join, table, keys, before, probed, step, column, num_rows, after, next, hi - 1,
    );
    assert(accepted =~= given.take(probe.len() as int));
    if any_accepted(given, lo, hi) {
        let k = choose|k: int| lo <= k < hi && #[trigger] given[k];
        assert(0 <= k < probe.len() && probe[k] == i && accepted[k]);
    }
    if exists|k: int| 0 <= k < probe.len() && #[trigger] probe[k] == i && accepted[k] {
        let k = choose|k: int| 0 <= k < probe.len() && #[trigger] probe[k] == i && accepted[k];
        lemma_anti_kept(
            join, table, keys, before, probed, step, column, num_rows, after, next, k,
        );
        assert(lo <= k < hi && given[k]);
    }
    if exists|k: int| 0 <= k < probe.len() && #[trigger] probe[k] == i && kept[k] {
        let k = choose|k: int| 0 <= k < probe.len() && #[trigger] probe[k] == i && kept[k];
        lemma_anti_kept(
            join, table, keys, before, probed, step, column, num_rows, after, next, k,
        );
    }
}

/// An anti join with a predicate on a cleared state returns no row twice, and the rows in their
/// order.
pub proof fn anti_join_returns_rows_once_and_in_order<Key>(
    join: JoinHashTable,
    table: Map<Key, Vec<RowPtr>>,
    keys: Seq<Key>,
    before: ProbeState,
    probed: ProbeState,
    step: JoinStep,
    column: PredicateColumn,
    num_rows: usize,
    after: ProbeState,
    next: JoinStep,
    k: int,
    l: int,
)
    requires
        join.join_type is Anti,
        join.has_other_predicate,
        before.probe_indexs@.len() == 0,
        before.build_indexs@.len() == 0,
        before.row_state@.len() == 0,
        keys.len() <= 0x1_0000_0000,
        forall|key: Key| #[trigger]
            table.contains_key(key) ==> 0 < table[key]@.len() <= u32::MAX,
        probe_outcome(join, lookups(table, keys), before, probed, step),
        step is EvaluatePredicate,
        answers(step, JoinEvent::Predicate { column, num_rows }, probed),
        resume_outcome(step, JoinEvent::Predicate { column, num_rows }, probed, after, next),
        0 <= k < l < probed.probe_indexs@.len(),
        bits(next->TakeProbeFiltered_0)[k],
        bits(next->TakeProbeFiltered_0)[l],
    ensures
        probed.probe_indexs@[k] < probed.probe_indexs@[l],
{
    let found = lookups(table, keys);
    let all = candidates(found, true, found.len() as int);
    let probe = probed.probe_indexs@;
    lemma_anti_kept(join, table, keys, before, probed, step, column, num_rows, after, next, k);
    lemma_anti_kept(join, table, keys, before, probed, step, column, num_rows, after, next, l);
    lemma_candidates_in_order(found, true, k, l);
    assert(probe[k] == all[k].probe && probe[l] == all[l].probe);
}

/// On counters that count the candidates, a left join keeps the accepted candidates, and the last
/// candidate of a row that has no accepted one before it.
proof fn lemma_left_bit_at(
    found: Seq<Option<Seq<RowPtr>>>,
    given: Seq<bool>,
    state: Seq<u32>,
    i: int,
    k: int,
)
    requires
        0 <= i < found.len() <= 0x1_0000_0000,
        found[i] matches Some(rows) ==> 0 < rows.len() <= u32::MAX,
        given.len() >= start(found, true, found.len() as int),
        counts_candidates(found, 1, state),
        start(found, true, i) <= k < start(found, true, i + 1),
    ensures
        left_bit(given, probe_side(candidates(found, true, found.len() as int)), state, k)
            <==> given[k] || (k == start(found, true, i + 1) - 1 && !any_accepted(
            given,
            start(found, true, i),
            k,
        )),
{
    let n = found.len() as int;
    let probe = probe_side(candidates(found, true, n));
    let lo = start(found, true, i);
    let hi = start(found, true, i + 1);
    lemma_segment(found, true, i);
    lemma_candidates_at(found, true, i, n);
    lemma_within_segment(given, probe, i, lo, k);
    assert(state[i] == row_weight(found[i], 1));
    assert(state[i] == hi - lo);
    assert(probe[k] == i);
}

/// What a left join with a predicate does with the candidate `k`.
proof fn lemma_left_kept<Key>(
    join: JoinHashTable,
    table: Map<Key, Vec<RowPtr>>,
    keys: Seq<Key>,
    before: ProbeState,
    probed: ProbeState,
    step: JoinStep,
    columns: Vec<ColumnNulls>,
    gathered: ProbeState,
    evaluate: JoinStep,
    column: PredicateColumn,
    num_rows: usize,
    after: ProbeState,
    next: JoinStep,
    k: int,
)
    requires
        join.join_type is Left,
        join.has_other_predicate,
        before.probe_indexs@.len() == 0,
        before.build_indexs@.len() == 0,
        before.row_state@.len() == 0,
        keys.len() <= 0x1_0000_0000,
        forall|key: Key| #[trigger]
            table.contains_key(key) ==> 0 < table[key]@.len() <= u32::MAX,
        probe_outcome(join, lookups(table, keys), before, probed, step),
        answers(step, JoinEvent::BuildColumns(columns), probed),
        resume_outcome(step, JoinEvent::BuildColumns(columns), probed, gathered, evaluate),
        answers(evaluate, JoinEvent::Predicate { column, num_rows }, gathered),
        resume_outcome(
            evaluate,
            JoinEvent::Predicate { column, num_rows },
            gathered,
            after,
            next,
        ),
        0 <= k < probed.probe_indexs@.len(),
    ensures
        ({
            let found = lookups(table, keys);
            let given = verdicts(column, num_rows as nat);
            let i = probed.probe_indexs@[k] as int;
            &&& probed.probe_indexs@ == probe_side(candidates(found, true, found.len() as int))
            &&& probed.probe_indexs@.len() <= given.len()
            &&& 0 <= i < keys.len()
            &&& start(found, true, i) <= k < start(found, true, i + 1)
            &&& bits(step->GatherBuild_validity)[k] == table.contains_key(keys[i])
            &&& next is MergeNullable || next is MergeNullableFiltered
            &&& next is MergeNullable ==> given[k]
            &&& next matches JoinStep::MergeNullableFiltered(nulls, bitmap) ==> (bits(bitmap)[k]
                <==> given[k] || (k == start(found, true, i + 1) - 1 && !any_accepted(
                given,
                start(found, true, i),
                k,
            )))
        }),
{
    let found = lookups(table, keys);
    let n = found.len() as int;
    let all = candidates(found, true, n);
    let probe = probed.probe_indexs@;
    let state = probed.row_state@;
    let given = verdicts(column, num_rows as nat);
    assert(probe =~= probe_side(all));
    probing_counts_the_build_rows(join, table, keys, before, probed, step);
    assert forall|i: int| 0 <= i < n implies #[trigger] state[i] == row_weight(found[i], 1) by {
        assert(found[i] == if table.contains_key(keys[i]) {
            Some(table[keys[i]]@)
        } else {
            None
        });
    }
    lemma_row_of_candidate(found, true, n, k);
    let i = all[k].probe as int;
    assert(table.contains_key(keys[i]) ==> 0 < table[keys[i]]@.len() <= u32::MAX);
    assert(bits(step->GatherBuild_validity)[k] == matched_side(all)[k]);
    lemma_left_bit_at(found, given, state, i, k);
    if let JoinStep::MergeNullableFiltered(nulls, bitmap) = next {
        assert(bits(bitmap)[k] == left_bit(given, probe, state, k));
    }
}

/// A left join with a predicate on a cleared state. The candidate `k` is a pair of the result if
/// the table contains the key of its row and the engine's column accepts it. A pair is kept.
pub proof fn left_join_keeps_the_accepted_pairs<Key>(
    join: JoinHashTable,
    table: Map<Key, Vec<RowPtr>>,
    keys: Seq<Key>,
    before: ProbeState,
    probed: ProbeState,
    step: JoinStep,
    columns: Vec<ColumnNulls>,
    gathered: ProbeState,
    evaluate: JoinStep,
    column: PredicateColumn,
    num_rows: usize,
    after: ProbeState,
    next: JoinStep,
    k: int,
)
    requires
        join.join_type is Left,
        join.has_other_predicate,
        before.probe_indexs@.len() == 0,
        before.build_indexs@.len() == 0,
        before.row_state@.len() == 0,
        keys.len() <= 0x1_0000_0000,
        forall|key: Key| #[trigger]
            table.contains_key(key) ==> 0 < table[key]@.len() <= u32::MAX,
        probe_outcome(join, lookups(table, keys), before, probed, step),
        answers(step, JoinEvent::BuildColumns(columns), probed),
        resume_outcome(step, JoinEvent::BuildColumns(columns), probed, gathered, evaluate),
        answers(evaluate, JoinEvent::Predicate { column, num_rows }, gathered),
        resume_outcome(
            evaluate,
            JoinEvent::Predicate { column, num_rows },
            gathered,
            after,
            next,
        ),
        0 <= k < probed.probe_indexs@.len(),
        table.contains_key(keys[probed.probe_indexs@[k] as int]),
        match column {
            PredicateColumn::Const(value) => value,
            PredicateColumn::Values(values) => bits(values)[k],
        },
    ensures
        next is MergeNullable || next is MergeNullableFiltered,
        next matches JoinStep::MergeNullableFiltered(nulls, bitmap) ==> bits(bitmap)[k],
        after.probe_indexs@ == probed.probe_indexs@,
        after.build_indexs@ == probed.build_indexs@,
{
    lemma_left_kept(
        join,
        table,
        keys,
        before,
        probed,
        step,
        columns,
        gathered,
        evaluate,
        column,
        num_rows,
        after,
        next,
        k,
    );
}

/// Beside its pairs, a left join with a predicate on a cleared state keeps a candidate of the input
/// row `i` exactly if the row has no pair.
pub proof fn left_join_keeps_rows_without_a_pair<Key>(
    join: JoinHashTable,
    table: Map<Key, Vec<RowPtr>>,
    keys: Seq<Key>,
    before: ProbeState,
    probed: ProbeState,
    step: JoinStep,
    columns: Vec<ColumnNulls>,
    gathered: ProbeState,
    evaluate: JoinStep,
    column: PredicateColumn,
    num_rows: usize,
    after: ProbeState,
    next: JoinStep,
    i: int,
)
    requires
        join.join_type is Left,
        join.has_other_predicate,
        before.probe_indexs@.len() == 0,
        before.build_indexs@.len() == 0,
        before.row_state@.len() == 0,
        keys.len() <= 0x1_0000_0000,
        forall|key: Key| #[trigger]
            table.contains_key(key) ==> 0 < table[key]@.len() <= u32::MAX,
        probe_outcome(join, lookups(table, keys), before, probed, step),
        answers(step, JoinEvent::BuildColumns(columns), probed),
        resume_outcome(step, JoinEvent::BuildColumns(columns), probed, gathered, evaluate),
        answers(evaluate, JoinEvent::Predicate { column, num_rows }, gathered),
        resume_outcome(
            evaluate,
            JoinEvent::Predicate { column, num_rows },
            gathered,
            after,
            next,
        ),
        0 <= i < keys.len(),
    ensures
        ({
            let probe = probed.probe_indexs@;
            let kept = |k: int|
                match next {
                    JoinStep::MergeNullableFiltered(nulls, bitmap) => bits(bitmap)[k],
                    _ => true,
                };
            let pair = |k: int|
                table.contains_key(keys[probe[k] as int]) && match column {
                    PredicateColumn::Const(value) => value,
                    PredicateColumn::Values(values) => bits(values)[k],
                };
            (exists|k: int| 0 <= k < probe.len() && #[trigger] probe[k] == i && kept(k) && !pair(k))
                <==> !(exists|k: int| 0 <= k < probe.len() && #[trigger] probe[k] == i && pair(k))
        }),
{
    let found = lookups(table, keys);
    let n = found.len() as int;
    let probe = probed.probe_indexs@;
    let given = verdicts(column, num_rows as nat);
    let kept = |k: int|
        match next {
            JoinStep::MergeNullableFiltered(nulls, bitmap) => bits(bitmap)[k],
            _ => true,
        };
    let pair = |k: int|
        table.contains_key(keys[probe[k] as int]) && match column {
            PredicateColumn::Const(value) => value,
            PredicateColumn::Values(values) => bits(values)[k],
        };
    let lo = start(found, true, i);
    let hi = start(found, true, i + 1);
    assert(probe =~= probe_side(candidates(found, true, n)));
    assert(found[i] is Some == table.contains_key(keys[i]));
    assert(table.contains_key(keys[i]) ==> 0 < table[keys[i]]@.len() <= u32::MAX);
    lemma_candidates_at(found, true, i, n);
    lemma_segment(found, true, i);
    assert(lo < hi);
    assert(probe[hi - 1] == i);
    if exists|k: int| 0 <= k < probe.len() && #[trigger] probe[k] == i && pair(k) {
        let l = choose|l: int| 0 <= l < probe.len() && #[trigger] probe[l] == i && pair(l);
        lemma_left_kept(
            join,
            table,
            keys,
            before,
            probed,
            step,
            columns,
            gathered,
            evaluate,
            column,
            num_rows,
            after,
            next,
            l,
        );
        if exists|k: int|
            0 <= k < probe.len() && #[trigger] probe[k] == i && kept(k) && !pair(k) {
            let k = choose|k: int|
                0 <= k < probe.len() && #[trigger] probe[k] == i && kept(k) && !pair(k);
            lemma_left_kept(
                join,
                table,
                keys,
                before,
                probed,
                step,
                columns,
                gathered,
                evaluate,
                column,
                num_rows,
                after,
                next,
                k,
            );
            assert(!given[k]);
            assert(lo <= l < k && given[l]);
            assert(false);
        }
    } else {
        let k = hi - 1;
        lemma_left_kept(
            join,
            table,
            keys,
            before,
            probed,
            step,
            columns,
            gathered,
            evaluate,
            column,
            num_rows,
            after,
            next,
            k,
        );
        if any_accepted(given, lo, k) {
            let l = choose|l: int| lo <= l < k && #[trigger] given[l];
            assert(probe[l] == i);
            lemma_left_kept(
                join,
                table,
                keys,
                before,
                probed,
                step,
                columns,
                gathered,
                evaluate,
                column,
                num_rows,
                after,
                next,
                l,
            );
            assert(!pair(l));
            assert(hi == lo + 1);
        }
        assert(0 <= k < probe.len() && probe[k] == i && kept(k) && !pair(k));
    }
}

/// A left join with a predicate on a cleared state keeps a row without a pair once: no candidate of
/// the same row is kept beside it.
pub proof fn left_join_keeps_a_row_without_a_pair_once<Key>(
    join: JoinHashTable,
    table: Map<Key, Vec<RowPtr>>,
    keys: Seq<Key>,
    before: ProbeState,
    probed: ProbeState,
    step: JoinStep,
    columns: Vec<ColumnNulls>,
    gathered: ProbeState,
    evaluate: JoinStep,
    column: PredicateColumn,
    num_rows: usize,
    after: ProbeState,
    next: JoinStep,
    k: int,
    l: int,
)
    requires
        join.join_type is Left,
        join.has_other_predicate,
        before.probe_indexs@.len() == 0,
        before.build_indexs@.len() == 0,
        before.row_state@.len() == 0,
        keys.len() <= 0x1_0000_0000,
        forall|key: Key| #[trigger]
            table.contains_key(key) ==> 0 < table[key]@.len() <= u32::MAX,
        probe_outcome(join, lookups(table, keys), before, probed, step),
        answers(step, JoinEvent::BuildColumns(columns), probed),
        resume_outcome(step, JoinEvent::BuildColumns(columns), probed, gathered, evaluate),
        answers(evaluate, JoinEvent::Predicate { column, num_rows }, gathered),
        resume_outcome(
            evaluate,
            JoinEvent::Predicate { column, num_rows },
            gathered,
            after,
            next,
        ),
        0 <= k < probed.probe_indexs@.len(),
        0 <= l < probed.probe_indexs@.len(),
        probed.probe_indexs@[k] == probed.probe_indexs@[l],
        next matches JoinStep::MergeNullableFiltered(nulls, bitmap) ==> bits(bitmap)[k] && bits(
            bitmap,
        )[l],
        !(table.contains_key(keys[probed.probe_indexs@[k] as int]) && match column {
            PredicateColumn::Const(value) => value,
            PredicateColumn::Values(values) => bits(values)[k],
        }),
    ensures
        k == l,
{
    let found = lookups(table, keys);
    let given = verdicts(column, num_rows as nat);
    let i = probed.probe_indexs@[k] as int;
    lemma_left_kept(
        join,
        table,
        keys,
        before,
        probed,
        step,
        columns,
        gathered,
        evaluate,
        column,
        num_rows,
        after,
        next,
        k,
    );
    lemma_left_kept(
        join,
        table,
        keys,
        before,
        probed,
        step,
        columns,
        gathered,
        evaluate,
        column,
        num_rows,
        after,
        next,
        l,
    );
    lemma_candidates_at(found, true, i, found.len() as int);
    if table.contains_key(keys[i]) {
        assert(!given[k]);
        if l < k {
            assert(given[l]);
            assert(start(found, true, i) <= l < k && given[l]);
        }
    }
}

/// A left join with a predicate on a cleared state shows the build row of a pair, and nulls beside
/// every other candidate: the column `c` of the build side is null at `k` exactly where it was null
/// itself or the candidate is no pair.
pub proof fn left_join_shows_build_rows_of_pairs_only<Key>(
    join: JoinHashTable,
    table: Map<Key, Vec<RowPtr>>,
    keys: Seq<Key>,
    before: ProbeState,
    probed: ProbeState,
    step: JoinStep,
    columns: Vec<ColumnNulls>,
    gathered: ProbeState,
    evaluate: JoinStep,
    column: PredicateColumn,
    num_rows: usize,
    after: ProbeState,
    next: JoinStep,
    c: int,
    k: int,
) -> (nulls: ColumnNulls)
    requires
        join.join_type is Left,
        join.has_other_predicate,
        before.probe_indexs@.len() == 0,
        before.build_indexs@.len() == 0,
        before.row_state@.len() == 0,
        keys.len() <= 0x1_0000_0000,
        forall|key: Key| #[trigger]
            table.contains_key(key) ==> 0 < table[key]@.len() <= u32::MAX,
        probe_outcome(join, lookups(table, keys), before, probed, step),
        answers(step, JoinEvent::BuildColumns(columns), probed),
        resume_outcome(step, JoinEvent::BuildColumns(columns), probed, gathered, evaluate),
        answers(evaluate, JoinEvent::Predicate { column, num_rows }, gathered),
        resume_outcome(
            evaluate,
            JoinEvent::Predicate { column, num_rows },
            gathered,
            after,
            next,
        ),
        0 <= c < columns@.len(),
        0 <= k < probed.probe_indexs@.len(),
    ensures
        match next {
            JoinStep::MergeNullable(shown) => shown@.len() == columns@.len() && nulls == shown@[c],
            JoinStep::MergeNullableFiltered(shown, bitmap) => shown@.len() == columns@.len()
                && nulls == shown@[c],
            _ => false,
        },
        ({
            let pair = table.contains_key(keys[probed.probe_indexs@[k] as int]) && match column {
                PredicateColumn::Const(value) => value,
                PredicateColumn::Values(values) => bits(values)[k],
            };
            match columns@[c] {
                ColumnNulls::Null => nulls is Null,
                ColumnNulls::Nullable(own) => nulls is Nullable && bits(nulls->Nullable_0)[k] == (
                bits(own)[k] && pair),
                ColumnNulls::Required => nulls is Nullable && bits(nulls->Nullable_0)[k] == pair,
            }
        }),
{
    let given = verdicts(column, num_rows as nat);
    let validity = bits(step->GatherBuild_validity);
    let first = evaluate->EvaluateNullable_0@;
    lemma_left_kept(
        join,
        table,
        keys,
        before,
        probed,
        step,
        columns,
        gathered,
        evaluate,
        column,
        num_rows,
        after,
        next,
        k,
    );
    assert(columns_are(first, columns@, validity));
    assert(first[c]@ == with_validity(columns@[c]@, validity));
    assert(validity_fits(columns@[c]@, validity));
    match next {
        JoinStep::MergeNullableFiltered(shown, bitmap) => {
            assert(shown@[c]@ == with_validity(first[c]@, given));
            assert(validity_fits(first[c]@, given));
            shown@[c]
        },
        _ => first[c],
    }
}

/// The filters of a column: its bitmap unless it is constant, whether each of its values is true
/// and whether each is false.
pub proof fn filters_tell_what_the_column_holds(
    column: PredicateColumn,
    r: (Option<Bitmap>, bool, bool),
)
    requires
        are_filters_of(column, r),
    ensures
        column matches PredicateColumn::Values(values) ==> {
            &&& r.0 == Some(values)
            &&& r.1 <==> (forall|k: int| 0 <= k < bits(values).len() ==> bits(values)[k])
            &&& r.2 <==> (forall|k: int| 0 <= k < bits(values).len() ==> !bits(values)[k])
        },
        column matches PredicateColumn::Const(value) ==> {
            &&& r.0 is None
            &&& r.1 <==> value
            &&& r.2 <==> !value
        },
{
}

} // verus!
