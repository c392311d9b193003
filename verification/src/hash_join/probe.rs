//! Probing: from the keys of a probe block to the candidate rows of the join.

use std::collections::HashMap;
use std::hash::Hash;
use vstd::prelude::*;
use vstd::std_specs::hash::obeys_key_model;

verus! {

/// Where a row of the build side is stored.
#[derive(Clone, Copy, Debug, PartialEq, Eq, Structural)]
pub struct RowPtr {
    pub chunk_index: u32,
    pub row_index: u32,
}

/// What probing leaves behind for the later phases of a join: the candidates, as build rows beside
/// probe rows, and one counter per probe row.
#[derive(Debug)]
pub struct ProbeState {
    pub probe_indexs: Vec<u32>,
    pub build_indexs: Vec<RowPtr>,
    pub row_state: Vec<u32>,
}

impl ProbeState {
    /// Nothing left from an earlier block.
    pub open spec fn is_cleared(self) -> bool {
        self.probe_indexs@.len() == 0 && self.build_indexs@.len() == 0 && self.row_state@.len() == 0
    }

    /// The state that a probe block starts with.
    pub fn new() -> (r: ProbeState)
        ensures
            r.is_cleared(),
            r.probe_indexs@.len() == 0,
            r.build_indexs@.len() == 0,
            r.row_state@.len() == 0,
    {
        ProbeState { probe_indexs: Vec::new(), build_indexs: Vec::new(), row_state: Vec::new() }
    }
}

/// A row of the joined block before any predicate: a probe row beside a build row, or beside a
/// placeholder where the probe row has no match.
pub struct Candidate {
    pub build: RowPtr,
    pub probe: u32,
    pub matched: bool,
}

/// The build rows that each probe key finds, if the key occurs on the build side at all.
pub open spec fn lookups<Key>(table: Map<Key, Vec<RowPtr>>, keys: Seq<Key>) -> Seq<
    Option<Seq<RowPtr>>,
> {
    Seq::new(
        keys.len(),
        |i: int|
            if table.contains_key(keys[i]) {
                Some(table[keys[i]]@)
            } else {
                None
            },
    )
}

/// The build row that stands in where there is none.
pub open spec fn placeholder() -> RowPtr {
    RowPtr { chunk_index: 0, row_index: 0 }
}

/// The candidates of probe row `i`: one per build row found, and a placeholder for a key that is
/// not on the build side if `pad` asks for one.
pub open spec fn row_candidates(found: Option<Seq<RowPtr>>, i: int, pad: bool) -> Seq<Candidate> {
    match found {
        Some(rows) => Seq::new(
            rows.len(),
            |j: int| Candidate { build: rows[j], probe: i as u32, matched: true },
        ),
        None => if pad {
            seq![Candidate { build: placeholder(), probe: i as u32, matched: false }]
        } else {
            Seq::empty()
        },
    }
}

/// The candidates of the first `n` probe rows, in the order of the probe rows.
pub open spec fn candidates(found: Seq<Option<Seq<RowPtr>>>, pad: bool, n: int) -> Seq<Candidate>
    decreases n,
{
    if n <= 0 {
        Seq::empty()
    } else {
        candidates(found, pad, n - 1) + row_candidates(found[n - 1], n - 1, pad)
    }
}

/// The build rows of a sequence of candidates.
pub open spec fn build_side(rows: Seq<Candidate>) -> Seq<RowPtr> {
    rows.map_values(|c: Candidate| c.build)
}

/// The probe rows of a sequence of candidates.
pub open spec fn probe_side(rows: Seq<Candidate>) -> Seq<u32> {
    rows.map_values(|c: Candidate| c.probe)
}

/// Which candidates have a build row.
pub open spec fn matched_side(rows: Seq<Candidate>) -> Seq<bool> {
    rows.map_values(|c: Candidate| c.matched)
}

/// The probe rows among the first `n` whose key is (`present`) or is not on the build side.
pub open spec fn rows_where(found: Seq<Option<Seq<RowPtr>>>, present: bool, n: int) -> Seq<u32>
    decreases n,
{
    if n <= 0 {
        Seq::empty()
    } else if found[n - 1] is Some == present {
        rows_where(found, present, n - 1).push((n - 1) as u32)
    } else {
        rows_where(found, present, n - 1)
    }
}

/// `state` cut or padded with zeros to `n` counters.
pub open spec fn resized(state: Seq<u32>, n: nat) -> Seq<u32> {
    Seq::new(
        n,
        |i: int|
            if i < state.len() {
                state[i]
            } else {
                0
            },
    )
}

/// What a probe row adds to its counter: its number of build rows, or `unmatched` if its key is
/// not on the build side.
pub open spec fn row_weight(found: Option<Seq<RowPtr>>, unmatched: u32) -> u32 {
    match found {
        Some(rows) => rows.len() as u32,
        None => unmatched,
    }
}

/// The counters of `state`, one per probe row, with the weights of the first `n` rows added.
pub open spec fn weighed(
    state: Seq<u32>,
    found: Seq<Option<Seq<RowPtr>>>,
    unmatched: u32,
    n: int,
) -> Seq<int> {
    Seq::new(
        found.len(),
        |i: int|
            resized(state, found.len())[i] + (if i < n {
                row_weight(found[i], unmatched) as int
            } else {
                0
            }),
    )
}

/// No counter overflows when the weights are added.
pub open spec fn weights_fit(
    state: Seq<u32>,
    found: Seq<Option<Seq<RowPtr>>>,
    unmatched: u32,
) -> bool {
    forall|i: int|
        0 <= i < found.len() ==> #[trigger] weighed(state, found, unmatched, found.len() as int)[i]
            <= u32::MAX
}

/// Appending candidates appends to each side.
pub proof fn lemma_sides_of_sum(a: Seq<Candidate>, b: Seq<Candidate>)
    ensures
        build_side(a + b) == build_side(a) + build_side(b),
        probe_side(a + b) == probe_side(a) + probe_side(b),
        matched_side(a + b) == matched_side(a) + matched_side(b),
{
    assert(build_side(a + b) =~= build_side(a) + build_side(b));
    assert(probe_side(a + b) =~= probe_side(a) + probe_side(b));
    assert(matched_side(a + b) =~= matched_side(a) + matched_side(b));
}

/// Looks a key up on the build side.
pub fn find_key<'a, Key: Eq + Hash>(
    hash_table: &'a HashMap<Key, Vec<RowPtr>>,
    key: &Key,
) -> (r: Option<&'a Vec<RowPtr>>)
    requires
        obeys_key_model::<Key>(),
    ensures
        match r {
            Some(rows) => hash_table@.contains_key(*key) && *rows == hash_table@[*key],
            None => !hash_table@.contains_key(*key),
        },
{
    broadcast use vstd::std_specs::hash::group_hash_axioms;

    hash_table.get(key)
}

/// Appends the candidates of probe row `i`, whose key finds the build rows `rows`.
pub(crate) fn push_matches(
    build_indexs: &mut Vec<RowPtr>,
    probe_indexs: &mut Vec<u32>,
    rows: &Vec<RowPtr>,
    i: usize,
)
    ensures
        final(build_indexs)@ == old(build_indexs)@ + build_side(
            row_candidates(Some(rows@), i as int, false),
        ),
        final(probe_indexs)@ == old(probe_indexs)@ + probe_side(
            row_candidates(Some(rows@), i as int, false),
        ),
{
    build_indexs.extend_from_slice(rows);
    assert(build_indexs@ =~= old(build_indexs)@ + build_side(
        row_candidates(Some(rows@), i as int, false),
    ));
    let mut n: usize = 0;
    while n < rows.len()
        invariant
            n <= rows@.len(),
            probe_indexs@ == old(probe_indexs)@ + Seq::new(n as nat, |j: int| i as u32),
        decreases rows@.len() - n,
    {
        probe_indexs.push(i as u32);
        n = n + 1;
        assert(probe_indexs@ =~= old(probe_indexs)@ + Seq::new(n as nat, |j: int| i as u32));
    }
    assert(probe_indexs@ =~= old(probe_indexs)@ + probe_side(
        row_candidates(Some(rows@), i as int, false),
    ));
}

} // verus!
