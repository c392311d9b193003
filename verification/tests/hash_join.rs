use std::collections::HashMap;

use arrow2::bitmap::Bitmap;
use arrow2::bitmap::MutableBitmap;
use databend_query::bitmap::unshare;
use databend_query::hash_join::fill::fill_null_for_anti_join;
use databend_query::hash_join::fill::fill_null_for_left_join;
use databend_query::hash_join::fill::fill_null_for_semi_join;
use databend_query::hash_join::probe::find_key;
use databend_query::hash_join::probe::ProbeState;
use databend_query::hash_join::probe::RowPtr;
use databend_query::hash_join::result_blocks::get_other_filters;
use databend_query::hash_join::result_blocks::nullable_columns;
use databend_query::hash_join::result_blocks::set_validity;
use databend_query::hash_join::result_blocks::ColumnNulls;
use databend_query::hash_join::result_blocks::JoinEvent;
use databend_query::hash_join::result_blocks::JoinHashTable;
use databend_query::hash_join::result_blocks::JoinStep;
use databend_query::hash_join::result_blocks::JoinType;
use databend_query::hash_join::result_blocks::PredicateColumn;

fn ptr(chunk_index: u32, row_index: u32) -> RowPtr {
    RowPtr {
        chunk_index,
        row_index,
    }
}

/// Key 1 has three build rows, key 2 has one, key 3 has two.
fn build_table() -> HashMap<u64, Vec<RowPtr>> {
    let mut table = HashMap::new();
    table.insert(1, vec![ptr(0, 0), ptr(0, 4), ptr(1, 2)]);
    table.insert(2, vec![ptr(0, 1)]);
    table.insert(3, vec![ptr(1, 0), ptr(1, 1)]);
    table
}

fn join(join_type: JoinType, has_other_predicate: bool) -> JoinHashTable {
    JoinHashTable {
        join_type,
        has_other_predicate,
    }
}

fn values(bits: &[bool]) -> PredicateColumn {
    PredicateColumn::Values(Bitmap::from(bits))
}

fn listed(bitmap: &Bitmap) -> Vec<bool> {
    bitmap.iter().collect()
}

fn selected(rows: &[u32], bitmap: &Bitmap) -> Vec<u32> {
    let mut out = vec![];
    for (row, kept) in rows.iter().zip(bitmap.iter()) {
        if kept {
            out.push(*row);
        }
    }
    out
}

fn validity_of(column: &ColumnNulls) -> Vec<bool> {
    match column {
        ColumnNulls::Nullable(validity) => listed(validity),
        _ => panic!("not a nullable column"),
    }
}

#[test]
fn semi_fill_keeps_the_first_accepted() {
    let mut bm = MutableBitmap::from([true, true, true]);
    let mut row_state = vec![0, 0];
    fill_null_for_semi_join(&mut bm, &vec![0, 0, 0], &mut row_state);
    assert_eq!(bm, MutableBitmap::from([true, false, false]));
    assert_eq!(row_state, vec![1, 0]);
}

#[test]
fn semi_fill_skips_rejected_and_counted_rows() {
    let mut bm = MutableBitmap::from([false, true, true, true, false]);
    let mut row_state = vec![0, 7];
    fill_null_for_semi_join(&mut bm, &vec![0, 0, 0, 1], &mut row_state);
    assert_eq!(bm, MutableBitmap::from([false, true, false, false, false]));
    assert_eq!(row_state, vec![1, 7]);
}

#[test]
fn anti_fill_drops_a_row_with_accepted_candidates() {
    let mut bm = MutableBitmap::from([true, true, true]);
    let mut row_state = vec![3, 0];
    fill_null_for_anti_join(&mut bm, &vec![0, 0, 0], &mut row_state);
    assert_eq!(bm, MutableBitmap::from([false, false, false]));
    assert_eq!(row_state, vec![3, 0]);
}

#[test]
fn anti_fill_keeps_one_of_a_rejected_row() {
    let mut bm = MutableBitmap::from([false, false, false, true]);
    let mut row_state = vec![3, 0];
    fill_null_for_anti_join(&mut bm, &vec![0, 0, 0, 1], &mut row_state);
    assert_eq!(bm, MutableBitmap::from([false, false, true, true]));
    assert_eq!(row_state, vec![0, 0]);
}

#[test]
fn anti_fill_past_a_settled_row() {
    let mut bm = MutableBitmap::from([true, false, true]);
    let mut row_state = vec![1];
    fill_null_for_anti_join(&mut bm, &vec![0, 0, 0], &mut row_state);
    assert_eq!(bm, MutableBitmap::from([false, true, true]));
    assert_eq!(row_state, vec![0]);
}

#[test]
fn left_fill_keeps_accepted_and_unmatched() {
    let mut bm = MutableBitmap::from([true, false, true]);
    let mut row_state = vec![2, 0];
    fill_null_for_left_join(&mut bm, &vec![0, 0, 1], &mut row_state);
    assert_eq!(bm, MutableBitmap::from([true, false, true]));
    assert_eq!(row_state, vec![1, 0]);
}

#[test]
fn left_fill_keeps_the_last_of_a_rejected_row() {
    let mut bm = MutableBitmap::from([false, false, false, false]);
    let mut row_state = vec![3, 1];
    fill_null_for_left_join(&mut bm, &vec![0, 0, 0, 1], &mut row_state);
    assert_eq!(bm, MutableBitmap::from([false, false, true, true]));
    assert_eq!(row_state, vec![1, 1]);
}

#[test]
fn keys_are_found_or_not() {
    let table = build_table();
    assert_eq!(find_key(&table, &2), Some(&vec![ptr(0, 1)]));
    assert_eq!(find_key(&table, &9), None);
}

#[test]
fn inner_join_pairs_rows() {
    let mut state = ProbeState::new();
    let table = build_table();
    let step = join(JoinType::Inner, false).result_blocks(&table, &mut state, &vec![3, 9, 2]);
    assert!(matches!(step, JoinStep::Merge));
    assert_eq!(state.probe_indexs, vec![0, 0, 2]);
    assert_eq!(state.build_indexs, vec![ptr(1, 0), ptr(1, 1), ptr(0, 1)]);
    assert!(state.row_state.is_empty());
}

#[test]
fn inner_join_with_predicate_filters_the_merged_block() {
    let mut state = ProbeState::new();
    let step = join(JoinType::Inner, true).result_blocks(&build_table(), &mut state, &vec![2]);
    assert!(matches!(step, JoinStep::MergeThenFilter));
    assert_eq!(state.probe_indexs, vec![0]);
}

#[test]
fn probing_appends_to_what_is_there() {
    let mut state = ProbeState {
        probe_indexs: vec![8],
        build_indexs: vec![ptr(5, 5)],
        row_state: vec![4],
    };
    join(JoinType::Inner, false).result_blocks(&build_table(), &mut state, &vec![2]);
    assert_eq!(state.probe_indexs, vec![8, 0]);
    assert_eq!(state.build_indexs, vec![ptr(5, 5), ptr(0, 1)]);
    assert_eq!(state.row_state, vec![4]);
}

#[test]
fn semi_and_anti_join_split_the_probe_rows() {
    let keys: Vec<u64> = vec![9, 1, 2, 8, 1];
    let mut semi = ProbeState::new();
    let step = join(JoinType::Semi, false).result_blocks(&build_table(), &mut semi, &keys);
    assert!(matches!(step, JoinStep::TakeProbe));
    assert_eq!(semi.probe_indexs, vec![1, 2, 4]);
    let mut anti = ProbeState::new();
    let step = join(JoinType::Anti, false).result_blocks(&build_table(), &mut anti, &keys);
    assert!(matches!(step, JoinStep::TakeProbe));
    assert_eq!(anti.probe_indexs, vec![0, 3]);
    assert!(anti.build_indexs.is_empty());
}

#[test]
fn semi_join_with_predicate_gives_each_row_once() {
    let table = join(JoinType::Semi, true);
    let mut state = ProbeState::new();
    let step = table.result_blocks(&build_table(), &mut state, &vec![1, 9, 3, 2]);
    assert!(matches!(step, JoinStep::EvaluatePredicate { semi: true }));
    assert_eq!(state.probe_indexs, vec![0, 0, 0, 2, 2, 3]);
    assert_eq!(state.row_state, vec![0, 0, 0, 0]);
    let event = JoinEvent::Predicate {
        column: values(&[false, true, true, false, false, true]),
        num_rows: 6,
    };
    match table.resume(step, event, &mut state) {
        JoinStep::TakeProbeFiltered(bitmap) => {
            assert_eq!(selected(&state.probe_indexs, &bitmap), vec![0, 3]);
        }
        other => panic!("unexpected step {:?}", other),
    }
    assert_eq!(state.row_state, vec![1, 0, 0, 1]);
}

#[test]
fn semi_join_without_candidates_is_done() {
    let mut state = ProbeState::new();
    let step = join(JoinType::Semi, true).result_blocks(&build_table(), &mut state, &vec![7, 9]);
    assert!(matches!(step, JoinStep::TakeProbe));
    assert!(state.probe_indexs.is_empty());
    assert_eq!(state.row_state, vec![0, 0]);
}

#[test]
fn constant_predicates_of_a_semi_join() {
    let table = join(JoinType::Semi, true);
    for (value, expected) in vec![(true, vec![0, 1]), (false, vec![])] {
        let mut state = ProbeState::new();
        let step = table.result_blocks(&build_table(), &mut state, &vec![1, 2]);
        let event = JoinEvent::Predicate {
            column: PredicateColumn::Const(value),
            num_rows: 4,
        };
        match table.resume(step, event, &mut state) {
            JoinStep::TakeProbeFiltered(bitmap) => {
                assert_eq!(selected(&state.probe_indexs, &bitmap), expected);
            }
            other => panic!("unexpected step {:?}", other),
        }
    }
}

#[test]
fn anti_join_with_predicate_gives_each_row_once() {
    let table = join(JoinType::Anti, true);
    let mut state = ProbeState::new();
    let step = table.result_blocks(&build_table(), &mut state, &vec![1, 9, 3, 2]);
    assert!(matches!(step, JoinStep::EvaluatePredicate { semi: false }));
    assert_eq!(state.probe_indexs, vec![0, 0, 0, 1, 2, 2, 3]);
    assert_eq!(state.build_indexs[3], ptr(0, 0));
    assert_eq!(state.row_state, vec![3, 0, 2, 1]);
    let event = JoinEvent::Predicate {
        column: values(&[false, true, false, true, false, false, true]),
        num_rows: 7,
    };
    match table.resume(step, event, &mut state) {
        JoinStep::TakeProbeFiltered(bitmap) => {
            assert_eq!(selected(&state.probe_indexs, &bitmap), vec![1, 2]);
        }
        other => panic!("unexpected step {:?}", other),
    }
}

#[test]
fn anti_join_without_candidates_is_done() {
    let mut state = ProbeState::new();
    let step = join(JoinType::Anti, true).result_blocks(&build_table(), &mut state, &vec![7, 9]);
    assert!(matches!(step, JoinStep::TakeProbe));
    assert_eq!(state.probe_indexs, vec![0, 1]);
}

#[test]
fn left_join_without_predicate_pads_with_nulls() {
    let table = join(JoinType::Left, false);
    let mut state = ProbeState::new();
    let step = table.result_blocks(&build_table(), &mut state, &vec![9, 3]);
    assert_eq!(state.probe_indexs, vec![0, 1, 1]);
    assert_eq!(state.build_indexs, vec![ptr(0, 0), ptr(1, 0), ptr(1, 1)]);
    assert!(state.row_state.is_empty());
    let columns = vec![
        ColumnNulls::Required,
        ColumnNulls::Nullable(Bitmap::from([true, true, false])),
        ColumnNulls::Null,
    ];
    match table.resume(step, JoinEvent::BuildColumns(columns), &mut state) {
        JoinStep::MergeNullable(nulls) => {
            assert_eq!(validity_of(&nulls[0]), vec![false, true, true]);
            assert_eq!(validity_of(&nulls[1]), vec![false, true, false]);
            assert!(matches!(nulls[2], ColumnNulls::Null));
        }
        other => panic!("unexpected step {:?}", other),
    }
}

#[test]
fn left_join_validity_over_several_bytes() {
    let mut table = HashMap::new();
    table.insert(4u64, (0..13).map(|row| ptr(2, row)).collect::<Vec<RowPtr>>());
    let mut state = ProbeState::new();
    let step = join(JoinType::Left, false).result_blocks(&table, &mut state, &vec![9, 4, 9, 4]);
    let mut expected = vec![false];
    expected.extend([true; 13]);
    expected.push(false);
    expected.extend([true; 13]);
    match step {
        JoinStep::GatherBuild {
            validity,
            with_other_conjunct,
        } => {
            assert_eq!(listed(&validity), expected);
            assert!(!with_other_conjunct);
        }
        other => panic!("unexpected step {:?}", other),
    }
    assert_eq!(state.probe_indexs.len(), 28);
    assert_eq!(state.build_indexs[13], ptr(2, 12));
}

#[test]
fn an_empty_entry_is_dropped_by_a_left_join() {
    let mut table = HashMap::new();
    table.insert(1u64, vec![]);
    let mut state = ProbeState::new();
    join(JoinType::Left, true).result_blocks(&table, &mut state, &vec![1, 2]);
    assert_eq!(state.probe_indexs, vec![1]);
    assert_eq!(state.row_state, vec![0, 1]);
}

#[test]
fn left_join_with_predicate_keeps_every_probe_row() {
    let table = join(JoinType::Left, true);
    let mut state = ProbeState::new();
    let step = table.result_blocks(&build_table(), &mut state, &vec![1, 9, 3]);
    assert_eq!(state.row_state, vec![3, 1, 2]);
    let columns = vec![ColumnNulls::Required];
    let step = table.resume(step, JoinEvent::BuildColumns(columns), &mut state);
    assert!(matches!(step, JoinStep::EvaluateNullable(_)));
    let event = JoinEvent::Predicate {
        column: values(&[true, false, true, false, false, false]),
        num_rows: 6,
    };
    match table.resume(step, event, &mut state) {
        JoinStep::MergeNullableFiltered(nulls, bitmap) => {
            assert_eq!(listed(&bitmap), vec![true, false, true, true, false, true]);
            assert_eq!(selected(&state.probe_indexs, &bitmap), vec![0, 0, 1, 2]);
            assert_eq!(validity_of(&nulls[0]), vec![true, false, true, false, false, false]);
        }
        other => panic!("unexpected step {:?}", other),
    }
}

#[test]
fn left_join_with_an_accepting_predicate_is_not_filtered() {
    let table = join(JoinType::Left, true);
    for column in vec![values(&[true, true]), PredicateColumn::Const(true)] {
        let mut state = ProbeState::new();
        let step = table.result_blocks(&build_table(), &mut state, &vec![9, 2]);
        let columns = vec![ColumnNulls::Required];
        let step = table.resume(step, JoinEvent::BuildColumns(columns), &mut state);
        let event = JoinEvent::Predicate {
            column,
            num_rows: 2,
        };
        match table.resume(step, event, &mut state) {
            JoinStep::MergeNullable(nulls) => {
                assert_eq!(validity_of(&nulls[0]), vec![false, true]);
            }
            other => panic!("unexpected step {:?}", other),
        }
        assert_eq!(state.row_state, vec![1, 1]);
    }
}

#[test]
fn left_join_with_a_rejecting_predicate_nulls_every_row() {
    let table = join(JoinType::Left, true);
    let mut state = ProbeState::new();
    let step = table.result_blocks(&build_table(), &mut state, &vec![3, 2]);
    let columns = vec![ColumnNulls::Required];
    let step = table.resume(step, JoinEvent::BuildColumns(columns), &mut state);
    let event = JoinEvent::Predicate {
        column: PredicateColumn::Const(false),
        num_rows: 3,
    };
    match table.resume(step, event, &mut state) {
        JoinStep::MergeNullableFiltered(nulls, bitmap) => {
            assert_eq!(selected(&state.probe_indexs, &bitmap), vec![0, 1]);
            assert_eq!(validity_of(&nulls[0]), vec![false, false, false]);
        }
        other => panic!("unexpected step {:?}", other),
    }
}

#[test]
fn filters_of_constant_and_varying_predicates() {
    assert_eq!(get_other_filters(PredicateColumn::Const(true)), (None, true, false));
    assert_eq!(get_other_filters(PredicateColumn::Const(false)), (None, false, true));
    let (bitmap, all_true, all_false) = get_other_filters(values(&[true, false]));
    assert_eq!(listed(&bitmap.unwrap()), vec![true, false]);
    assert!(!all_true && !all_false);
    let (_, all_true, all_false) = get_other_filters(values(&[true, true, true]));
    assert!(all_true && !all_false);
    let (_, all_true, all_false) = get_other_filters(values(&[false; 9]));
    assert!(!all_true && all_false);
    let (_, all_true, all_false) = get_other_filters(values(&[]));
    assert!(all_true && all_false);
}

#[test]
fn validity_is_set_on_each_kind_of_column() {
    let validity = Bitmap::from([true, false, true]);
    assert!(matches!(set_validity(&ColumnNulls::Null, &validity), ColumnNulls::Null));
    let required = set_validity(&ColumnNulls::Required, &validity);
    assert_eq!(validity_of(&required), vec![true, false, true]);
    let own = ColumnNulls::Nullable(Bitmap::from([false, true, true]));
    assert_eq!(validity_of(&set_validity(&own, &validity)), vec![false, false, true]);
    let columns = nullable_columns(&vec![ColumnNulls::Required, own], &validity);
    assert_eq!(validity_of(&columns[0]), vec![true, false, true]);
    assert_eq!(validity_of(&columns[1]), vec![false, false, true]);
}

#[test]
fn shared_and_unshared_bitmaps_are_unshared() {
    let alone = Bitmap::from([true, false, true]);
    assert_eq!(unshare(alone), MutableBitmap::from([true, false, true]));
    let shared = Bitmap::from([false, true, true, false, true, true, false, true, true]);
    let other = shared.clone();
    let mut copy = unshare(shared);
    copy.set(0, true);
    assert_eq!(
        copy,
        MutableBitmap::from([true, true, true, false, true, true, false, true, true])
    );
    assert!(!other.get_bit(0));
    let slice = other.slice(3, 4);
    assert_eq!(unshare(slice), MutableBitmap::from([false, true, true, false]));
}

/// A predicate on pairs, as verdicts on the candidates of a probed state.
fn verdicts_on(state: &ProbeState, predicate: fn(RowPtr, u32) -> bool) -> Vec<bool> {
    let pairs = state.build_indexs.iter().zip(state.probe_indexs.iter());
    pairs.map(|(build, probe)| predicate(*build, *probe)).collect()
}

/// The rows of a semi or an anti join with a predicate.
fn filtered_rows(
    join_type: JoinType,
    keys: &Vec<u64>,
    predicate: fn(RowPtr, u32) -> bool,
) -> Vec<u32> {
    let table = join(join_type, true);
    let mut state = ProbeState::new();
    let step = table.result_blocks(&build_table(), &mut state, keys);
    if matches!(step, JoinStep::TakeProbe) {
        return state.probe_indexs;
    }
    let given = verdicts_on(&state, predicate);
    let event = JoinEvent::Predicate {
        column: values(&given),
        num_rows: given.len(),
    };
    match table.resume(step, event, &mut state) {
        JoinStep::TakeProbeFiltered(bitmap) => selected(&state.probe_indexs, &bitmap),
        other => panic!("unexpected step {:?}", other),
    }
}

fn in_first_chunk(build: RowPtr, _: u32) -> bool {
    build.chunk_index == 0
}

fn at_row_zero_of_first_chunk(build: RowPtr, _: u32) -> bool {
    build.chunk_index == 0 && build.row_index == 0
}

fn always(_: RowPtr, _: u32) -> bool {
    true
}

#[test]
fn left_join_is_inner_plus_anti() {
    let keys: Vec<u64> = vec![3, 9, 1, 2];

    let mut inner = ProbeState::new();
    let step = join(JoinType::Inner, true).result_blocks(&build_table(), &mut inner, &keys);
    assert!(matches!(step, JoinStep::MergeThenFilter));
    let given = verdicts_on(&inner, in_first_chunk);
    let mut expected: Vec<(u32, Option<RowPtr>)> = vec![];
    for k in 0..given.len() {
        if given[k] {
            expected.push((inner.probe_indexs[k], Some(inner.build_indexs[k])));
        }
    }
    assert_eq!(expected.len(), 3);
    let anti = filtered_rows(JoinType::Anti, &keys, in_first_chunk);
    assert_eq!(anti, vec![0, 1]);
    for row in anti {
        expected.push((row, None));
    }
    expected.sort_by_key(|row| row.0);

    let table = join(JoinType::Left, true);
    let mut left = ProbeState::new();
    let step = table.result_blocks(&build_table(), &mut left, &keys);
    let columns = vec![ColumnNulls::Required];
    let step = table.resume(step, JoinEvent::BuildColumns(columns), &mut left);
    let given = verdicts_on(&left, in_first_chunk);
    let event = JoinEvent::Predicate {
        column: values(&given),
        num_rows: given.len(),
    };
    let mut rows = vec![];
    match table.resume(step, event, &mut left) {
        JoinStep::MergeNullableFiltered(nulls, bitmap) => {
            let kept = listed(&bitmap);
            let valid = validity_of(&nulls[0]);
            for k in 0..kept.len() {
                if kept[k] {
                    let build = if valid[k] { Some(left.build_indexs[k]) } else { None };
                    rows.push((left.probe_indexs[k], build));
                }
            }
        }
        other => panic!("unexpected step {:?}", other),
    }
    assert_eq!(rows, expected);
}

#[test]
fn a_weaker_predicate_gives_more_semi_and_fewer_anti_rows() {
    let keys: Vec<u64> = vec![1, 9, 2, 3];
    let strict = filtered_rows(JoinType::Semi, &keys, at_row_zero_of_first_chunk);
    let weaker = filtered_rows(JoinType::Semi, &keys, in_first_chunk);
    assert_eq!(strict, vec![0]);
    assert_eq!(weaker, vec![0, 2]);
    let strict = filtered_rows(JoinType::Anti, &keys, at_row_zero_of_first_chunk);
    let weaker = filtered_rows(JoinType::Anti, &keys, in_first_chunk);
    assert_eq!(strict, vec![1, 2, 3]);
    assert_eq!(weaker, vec![1, 3]);
}

#[test]
fn an_accepting_predicate_changes_no_semi_or_anti_join() {
    let keys: Vec<u64> = vec![9, 1, 2, 8, 1];
    assert_eq!(filtered_rows(JoinType::Semi, &keys, always), vec![1, 2, 4]);
    assert_eq!(filtered_rows(JoinType::Anti, &keys, always), vec![0, 3]);
}
