//! Adjusting the outcome of an extra join predicate row by row.
//!
//! A probe row that has several candidates appears several times in the joined block, once per
//! candidate, and the predicate has one verdict for each of them. The three functions here turn the
//! verdicts into the bitmap that the join finally filters with. `probe_indexs[k]` is the probe row
//! of candidate `k`, and `row_state` keeps one counter per probe row.

use crate::bitmap::mutable_bitmap_get;
use crate::bitmap::mutable_bitmap_set;
use crate::bitmap::mutable_bits;
use arrow2::bitmap::MutableBitmap;
use vstd::prelude::*;

verus! {

/// The number of candidates before `k` that belong to `row` and that the predicate rejected.
pub open spec fn rejected_before(verdicts: Seq<bool>, probe: Seq<u32>, row: int, k: int) -> nat
    decreases k,
{
    if k <= 0 {
        0
    } else {
        rejected_before(verdicts, probe, row, k - 1) + (if probe[k - 1] == row && !verdicts[k - 1] {
            1nat
        } else {
            0nat
        })
    }
}

/// Whether a candidate before `k` belongs to `row` and was accepted by the predicate.
pub open spec fn accepted_before(verdicts: Seq<bool>, probe: Seq<u32>, row: int, k: int) -> bool {
    exists|j: int| 0 <= j < k && #[trigger] probe[j] == row && verdicts[j]
}

/// Every candidate has a verdict and a row counter.
pub open spec fn fits(verdicts: Seq<bool>, probe: Seq<u32>, state: Seq<u32>) -> bool {
    &&& probe.len() <= verdicts.len()
    &&& forall|k: int| 0 <= k < probe.len() ==> #[trigger] probe[k] < state.len()
}

/// A semi join keeps the first accepted candidate of each row whose counter is zero.
pub open spec fn semi_bit(verdicts: Seq<bool>, probe: Seq<u32>, state: Seq<u32>, k: int) -> bool {
    verdicts[k] && state[probe[k] as int] == 0 && !accepted_before(
        verdicts,
        probe,
        probe[k] as int,
        k,
    )
}

/// The bitmap that a semi join filters with, given the verdicts of the predicate.
pub open spec fn semi_bits(verdicts: Seq<bool>, probe: Seq<u32>, state: Seq<u32>) -> Seq<bool> {
    Seq::new(
        verdicts.len(),
        |k: int|
            if k < probe.len() {
                semi_bit(verdicts, probe, state, k)
            } else {
                verdicts[k]
            },
    )
}

/// The counter of `row` after the first `n` candidates of a semi join: a zero counter becomes one
/// with the first accepted candidate.
pub open spec fn semi_counter(
    verdicts: Seq<bool>,
    probe: Seq<u32>,
    state: Seq<u32>,
    row: int,
    n: int,
) -> u32 {
    if state[row] == 0 && accepted_before(verdicts, probe, row, n) {
        1
    } else {
        state[row]
    }
}

/// Whether a candidate before `k` belongs to `row` and came when at most one of the `count`
/// candidates of the row was still without a rejection.
pub open spec fn settled_before(
    verdicts: Seq<bool>,
    probe: Seq<u32>,
    row: int,
    count: u32,
    k: int,
) -> bool {
    exists|j: int|
        0 <= j < k && #[trigger] probe[j] == row && rejected_before(verdicts, probe, row, j)
            >= count - 1
}

/// An anti join keeps a candidate of a row whose counter is zero. A row with a counter is kept
/// once, at the candidate that is reached when all others were rejected, if that one is rejected
/// too. Candidates after that one are those of a row that counted too few: they are kept.
pub open spec fn anti_bit(verdicts: Seq<bool>, probe: Seq<u32>, state: Seq<u32>, k: int) -> bool {
    let row = probe[k] as int;
    let count = state[row];
    if count == 0 || settled_before(verdicts, probe, row, count, k) {
        true
    } else {
        rejected_before(verdicts, probe, row, k) >= count - 1 && !verdicts[k]
    }
}

/// The bitmap that an anti join filters with, given the verdicts of the predicate.
pub open spec fn anti_bits(verdicts: Seq<bool>, probe: Seq<u32>, state: Seq<u32>) -> Seq<bool> {
    Seq::new(
        verdicts.len(),
        |k: int|
            if k < probe.len() {
                anti_bit(verdicts, probe, state, k)
            } else {
                verdicts[k]
            },
    )
}

/// The counter of `row` after the first `n` candidates of an anti join: what was rejected is taken
/// off, and the candidate that settles the row takes the last one off.
pub open spec fn anti_counter(
    verdicts: Seq<bool>,
    probe: Seq<u32>,
    state: Seq<u32>,
    row: int,
    n: int,
) -> int {
    let count = state[row];
    if count == 0 || settled_before(verdicts, probe, row, count, n) {
        0
    } else {
        count - rejected_before(verdicts, probe, row, n)
    }
}

/// The counter of `row` after the first `n` candidates of a left join: what was rejected is taken
/// off, but a counter that is not zero never falls below one.
pub open spec fn left_counter(
    verdicts: Seq<bool>,
    probe: Seq<u32>,
    state: Seq<u32>,
    row: int,
    n: int,
) -> int {
    let left = state[row] - rejected_before(verdicts, probe, row, n);
    if state[row] == 0 {
        0
    } else if left < 1 {
        1
    } else {
        left
    }
}

/// A left join keeps the accepted candidates, and the candidate of a row that is reached when the
/// counter of the row is down to one or zero.
pub open spec fn left_bit(verdicts: Seq<bool>, probe: Seq<u32>, state: Seq<u32>, k: int) -> bool {
    verdicts[k] || left_counter(verdicts, probe, state, probe[k] as int, k) <= 1
}

/// The bitmap that a left join filters with, given the verdicts of the predicate.
pub open spec fn left_bits(verdicts: Seq<bool>, probe: Seq<u32>, state: Seq<u32>) -> Seq<bool> {
    Seq::new(
        verdicts.len(),
        |k: int|
            if k < probe.len() {
                left_bit(verdicts, probe, state, k)
            } else {
                verdicts[k]
            },
    )
}

/// A candidate that the predicate accepted makes its row settled from there on.
proof fn lemma_accepted_step(verdicts: Seq<bool>, probe: Seq<u32>, row: int, k: int)
    requires
        0 <= k < probe.len(),
    ensures
        accepted_before(verdicts, probe, row, k + 1) == (accepted_before(verdicts, probe, row, k)
            || (probe[k] == row && verdicts[k])),
{
    if accepted_before(verdicts, probe, row, k) {
        let j = choose|j: int| 0 <= j < k && #[trigger] probe[j] == row && verdicts[j];
        assert(0 <= j < k + 1 && probe[j] == row && verdicts[j]);
    }
    if probe[k] == row && verdicts[k] {
        assert(0 <= k < k + 1 && probe[k] == row && verdicts[k]);
    }
}

proof fn lemma_settled_step(verdicts: Seq<bool>, probe: Seq<u32>, row: int, count: u32, k: int)
    requires
        0 <= k < probe.len(),
    ensures
        settled_before(verdicts, probe, row, count, k + 1) == (settled_before(
            verdicts,
            probe,
            row,
            count,
            k,
        ) || (probe[k] == row && rejected_before(verdicts, probe, row, k) >= count - 1)),
{
    if settled_before(verdicts, probe, row, count, k) {
        let j = choose|j: int|
            0 <= j < k && #[trigger] probe[j] == row && rejected_before(verdicts, probe, row, j)
                >= count - 1;
        assert(0 <= j < k + 1 && probe[j] == row);
    }
    if probe[k] == row && rejected_before(verdicts, probe, row, k) >= count - 1 {
        assert(0 <= k < k + 1 && probe[k] == row);
    }
}

/// Until a row is settled, fewer of its candidates were rejected than it counts.
proof fn lemma_unsettled_bound(verdicts: Seq<bool>, probe: Seq<u32>, row: int, count: u32, k: int)
    requires
        0 <= k <= probe.len(),
        count > 0,
        !settled_before(verdicts, probe, row, count, k),
    ensures
        rejected_before(verdicts, probe, row, k) <= count - 1,
    decreases k,
{
    if k > 0 {
        lemma_settled_step(verdicts, probe, row, count, k - 1);
        lemma_unsettled_bound(verdicts, probe, row, count, k - 1);
    }
}

/// How the counters of a semi join change with candidate `k`, and whether it is kept.
pub proof fn lemma_semi_transition(verdicts: Seq<bool>, probe: Seq<u32>, state: Seq<u32>, k: int)
    requires
        0 <= k < probe.len(),
        fits(verdicts, probe, state),
    ensures
        semi_bit(verdicts, probe, state, k) == (verdicts[k] && semi_counter(
            verdicts,
            probe,
            state,
            probe[k] as int,
            k,
        ) == 0),
        forall|row: int|
            #![trigger state[row]]
            0 <= row < state.len() ==> semi_counter(verdicts, probe, state, row, k + 1)
                == if row == probe[k] && verdicts[k] && semi_counter(
                verdicts,
                probe,
                state,
                row,
                k,
            ) == 0 {
                1
            } else {
                semi_counter(verdicts, probe, state, row, k)
            },
{
    assert forall|row: int|
        #![trigger state[row]]
        0 <= row < state.len() implies semi_counter(
        verdicts,
        probe,
        state,
        row,
        k + 1,
    ) == if row == probe[k] && verdicts[k] && semi_counter(verdicts, probe, state, row, k) == 0 {
        1
    } else {
        semi_counter(verdicts, probe, state, row, k)
    } by {
        lemma_accepted_step(verdicts, probe, row, k);
    }
}

/// How the counters of an anti join change with candidate `k`, and whether it is kept.
pub proof fn lemma_anti_transition(verdicts: Seq<bool>, probe: Seq<u32>, state: Seq<u32>, k: int)
    requires
        0 <= k < probe.len(),
        fits(verdicts, probe, state),
    ensures
        ({
            let count = anti_counter(verdicts, probe, state, probe[k] as int, k);
            anti_bit(verdicts, probe, state, k) == (count == 0 || (count == 1 && !verdicts[k]))
        }),
        forall|row: int|
            #![trigger state[row]]
            0 <= row < state.len() ==> {
                let count = anti_counter(verdicts, probe, state, row, k);
                &&& 0 <= count <= state[row]
                &&& anti_counter(verdicts, probe, state, row, k + 1) == if row
                    == probe[k] && count > 0 && (count == 1 || !verdicts[k]) {
                    count - 1
                } else {
                    count
                }
            },
{
    assert forall|row: int|
        #![trigger state[row]]
        0 <= row < state.len() implies {
        let count = anti_counter(verdicts, probe, state, row, k);
        &&& 0 <= count <= state[row]
        &&& anti_counter(verdicts, probe, state, row, k + 1) == if row == probe[k]
            && count > 0 && (count == 1 || !verdicts[k]) {
            count - 1
        } else {
            count
        }
    } by {
        lemma_settled_step(verdicts, probe, row, state[row], k);
        if state[row] > 0 && !settled_before(verdicts, probe, row, state[row], k) {
            lemma_unsettled_bound(verdicts, probe, row, state[row], k);
        }
    }
    let row = probe[k] as int;
    if state[row] > 0 && !settled_before(verdicts, probe, row, state[row], k) {
        lemma_unsettled_bound(verdicts, probe, row, state[row], k);
    }
}

/// How the counters of a left join change with candidate `k`, and whether it is kept.
pub proof fn lemma_left_transition(verdicts: Seq<bool>, probe: Seq<u32>, state: Seq<u32>, k: int)
    requires
        0 <= k < probe.len(),
        fits(verdicts, probe, state),
    ensures
        left_bit(verdicts, probe, state, k) == (verdicts[k] || left_counter(
            verdicts,
            probe,
            state,
            probe[k] as int,
            k,
        ) <= 1),
        forall|row: int|
            #![trigger state[row]]
            0 <= row < state.len() ==> {
                let count = left_counter(verdicts, probe, state, row, k);
                &&& 0 <= count <= state[row]
                &&& left_counter(verdicts, probe, state, row, k + 1) == if row
                    == probe[k] && count > 1 && !verdicts[k] {
                    count - 1
                } else {
                    count
                }
            },
{
}

/// Keeps, of the accepted candidates of each probe row, the first one.
pub fn fill_null_for_semi_join(
    bm: &mut MutableBitmap,
    probe_indexs: &Vec<u32>,
    row_state: &mut Vec<u32>,
)
    requires
        fits(mutable_bits(*old(bm)), probe_indexs@, old(row_state)@),
    ensures
        mutable_bits(*final(bm)) == semi_bits(
            mutable_bits(*old(bm)),
            probe_indexs@,
            old(row_state)@,
        ),
        final(row_state)@.len() == old(row_state)@.len(),
        forall|row: int|
            0 <= row < old(row_state)@.len() ==> #[trigger] final(row_state)@[row] == semi_counter(
                mutable_bits(*old(bm)),
                probe_indexs@,
                old(row_state)@,
                row,
                probe_indexs@.len() as int,
            ),
{
    let ghost verdicts = mutable_bits(*bm);
    let ghost probe = probe_indexs@;
    let ghost state = row_state@;
    let mut index: usize = 0;
    while index < probe_indexs.len()
        invariant
            index <= probe.len(),
            probe == probe_indexs@,
            fits(verdicts, probe, state),
            mutable_bits(*bm).len() == verdicts.len(),
            row_state@.len() == state.len(),
            forall|k: int|
                0 <= k < verdicts.len() ==> #[trigger] mutable_bits(*bm)[k] == (if k < index {
                    semi_bit(verdicts, probe, state, k)
                } else {
                    verdicts[k]
                }),
            forall|row: int|
                0 <= row < state.len() ==> #[trigger] row_state@[row] == semi_counter(
                    verdicts,
                    probe,
                    state,
                    row,
                    index as int,
                ),
        decreases probe.len() - index,
    {
        let row: usize = probe_indexs[index] as usize;
        proof {
            assert(probe[index as int] < state.len());
            assert forall|r: int| 0 <= r < state.len() implies semi_counter(
                verdicts,
                probe,
                state,
                r,
                index + 1,
            ) == (if r == row && verdicts[index as int] && state[r] == 0 {
                1u32
            } else {
                #[trigger] semi_counter(verdicts, probe, state, r, index as int)
            }) by {
                lemma_accepted_step(verdicts, probe, r, index as int);
            }
        }
        if mutable_bitmap_get(bm, index) {
            if row_state[row] == 0 {
                row_state.set(row, 1);
            } else {
                mutable_bitmap_set(bm, index, false);
            }
        }
        index = index + 1;
    }
    assert(mutable_bits(*bm) =~= semi_bits(verdicts, probe, state));
}

/// Keeps a probe row without candidates, and one candidate of each row all of whose candidates were
/// rejected.
pub fn fill_null_for_anti_join(
    bm: &mut MutableBitmap,
    probe_indexs: &Vec<u32>,
    row_state: &mut Vec<u32>,
)
    requires
        fits(mutable_bits(*old(bm)), probe_indexs@, old(row_state)@),
    ensures
        mutable_bits(*final(bm)) == anti_bits(
            mutable_bits(*old(bm)),
            probe_indexs@,
            old(row_state)@,
        ),
        final(row_state)@.len() == old(row_state)@.len(),
        forall|row: int|
            0 <= row < old(row_state)@.len() ==> #[trigger] final(row_state)@[row] == anti_counter(
                mutable_bits(*old(bm)),
                probe_indexs@,
                old(row_state)@,
                row,
                probe_indexs@.len() as int,
            ),
{
    let ghost verdicts = mutable_bits(*bm);
    let ghost probe = probe_indexs@;
    let ghost state = row_state@;
    let mut index: usize = 0;
    while index < probe_indexs.len()
        invariant
            index <= probe.len(),
            probe == probe_indexs@,
            fits(verdicts, probe, state),
            mutable_bits(*bm).len() == verdicts.len(),
            row_state@.len() == state.len(),
            forall|k: int|
                0 <= k < verdicts.len() ==> #[trigger] mutable_bits(*bm)[k] == (if k < index {
                    anti_bit(verdicts, probe, state, k)
                } else {
                    verdicts[k]
                }),
            forall|row: int|
                0 <= row < state.len() ==> #[trigger] row_state@[row] == anti_counter(
                    verdicts,
                    probe,
                    state,
                    row,
                    index as int,
                ),
        decreases probe.len() - index,
    {
        let row: usize = probe_indexs[index] as usize;
        let ghost before = row_state@;
        let ghost verdict = verdicts[index as int];
        proof {
            assert(probe[index as int] < state.len());
            assert forall|r: int| 0 <= r < state.len() implies anti_counter(
                verdicts,
                probe,
                state,
                r,
                index + 1,
            ) == (if r != row {
                before[r] as int
            } else if before[r] == 0 {
                0
            } else if before[r] == 1 || !verdict {
                before[r] - 1
            } else {
                before[r] as int
            }) by {
                lemma_settled_step(verdicts, probe, r, state[r], index as int);
                assert(before[r] == anti_counter(verdicts, probe, state, r, index as int));
                if state[r] > 0 && !settled_before(verdicts, probe, r, state[r], index as int) {
                    lemma_unsettled_bound(verdicts, probe, r, state[r], index as int);
                }
            }
            let r = row as int;
            assert(before[r] == anti_counter(verdicts, probe, state, r, index as int));
            if state[r] > 0 && !settled_before(verdicts, probe, r, state[r], index as int) {
                lemma_unsettled_bound(verdicts, probe, r, state[r], index as int);
            }
        }
        if row_state[row] == 0 {
            mutable_bitmap_set(bm, index, true);
        } else if row_state[row] == 1 {
            let count: u32 = row_state[row];
            row_state.set(row, count - 1);
            let accepted = mutable_bitmap_get(bm, index);
            mutable_bitmap_set(bm, index, !accepted);
        } else if !mutable_bitmap_get(bm, index) {
            let count: u32 = row_state[row];
            row_state.set(row, count - 1);
        } else {
            mutable_bitmap_set(bm, index, false);
        }
        index = index + 1;
    }
    assert(mutable_bits(*bm) =~= anti_bits(verdicts, probe, state));
}

/// Keeps the accepted candidates, and one candidate of each row that has none.
pub fn fill_null_for_left_join(
    bm: &mut MutableBitmap,
    probe_indexs: &Vec<u32>,
    row_state: &mut Vec<u32>,
)
    requires
        fits(mutable_bits(*old(bm)), probe_indexs@, old(row_state)@),
    ensures
        mutable_bits(*final(bm)) == left_bits(
            mutable_bits(*old(bm)),
            probe_indexs@,
            old(row_state)@,
        ),
        final(row_state)@.len() == old(row_state)@.len(),
        forall|row: int|
            0 <= row < old(row_state)@.len() ==> #[trigger] final(row_state)@[row] == left_counter(
                mutable_bits(*old(bm)),
                probe_indexs@,
                old(row_state)@,
                row,
                probe_indexs@.len() as int,
            ),
{
    let ghost verdicts = mutable_bits(*bm);
    let ghost probe = probe_indexs@;
    let ghost state = row_state@;
    let mut index: usize = 0;
    while index < probe_indexs.len()
        invariant
            index <= probe.len(),
            probe == probe_indexs@,
            fits(verdicts, probe, state),
            mutable_bits(*bm).len() == verdicts.len(),
            row_state@.len() == state.len(),
            forall|k: int|
                0 <= k < verdicts.len() ==> #[trigger] mutable_bits(*bm)[k] == (if k < index {
                    left_bit(verdicts, probe, state, k)
                } else {
                    verdicts[k]
                }),
            forall|row: int|
                0 <= row < state.len() ==> #[trigger] row_state@[row] == left_counter(
                    verdicts,
                    probe,
                    state,
                    row,
                    index as int,
                ),
        decreases probe.len() - index,
    {
        let row: usize = probe_indexs[index] as usize;
        let ghost before = row_state@;
        proof {
            assert(probe[index as int] < state.len());
            assert forall|r: int| 0 <= r < state.len() implies left_counter(
                verdicts,
                probe,
                state,
                r,
                index + 1,
            ) == (if r == row && before[r] > 1 && !verdicts[index as int] {
                before[r] - 1
            } else {
                before[r] as int
            }) by {
                assert(before[r] == left_counter(verdicts, probe, state, r, index as int));
            }
            assert(before[row as int] == left_counter(
                verdicts,
                probe,
                state,
                row as int,
                index as int,
            ));
        }
        if row_state[row] == 0 {
            mutable_bitmap_set(bm, index, true);
        } else if row_state[row] == 1 {
            if !mutable_bitmap_get(bm, index) {
                mutable_bitmap_set(bm, index, true);
            }
        } else if !mutable_bitmap_get(bm, index) {
            let count: u32 = row_state[row];
            row_state.set(row, count - 1);
        }
        index = index + 1;
    }
    assert(mutable_bits(*bm) =~= left_bits(verdicts, probe, state));
}

} // verus!
