//! Aggregation without grouping: one state per aggregate function.
//!
//! The aggregate functions and the blocks belong to the engine. An aggregator knows where the state
//! of each function lives, which calls on the functions a block or the result take, in which order,
//! and when the states are dropped.

use crate::arena::alloc_layout;
use crate::arena::arena_new;
use crate::arena::disjoint;
use crate::arena::regions;
use crate::arena::StateAddr;
use crate::error::ErrorCode;
use bumpalo::Bump;
use bytes::BytesMut;
use vstd::layout::valid_layout;
use vstd::prelude::*;

verus! {

/// What an aggregator has to know of an aggregate function.
#[derive(Clone, Copy, Debug, PartialEq, Eq, Structural)]
pub struct AggregateFunction {
    /// Whether dropping a state of the function takes a call.
    pub need_manual_drop_state: bool,
}

/// The memory that the states of all functions take together.
#[derive(Clone, Copy, Debug, PartialEq, Eq, Structural)]
pub struct StateLayout {
    pub size: usize,
    pub align: usize,
}

/// How to set an aggregator up.
#[derive(Debug)]
pub struct AggregatorParams {
    pub aggregate_functions: Vec<AggregateFunction>,
    pub aggregate_functions_arguments_name: Vec<Vec<String>>,
    pub layout: Option<StateLayout>,
    pub offsets_aggregate_states: Vec<usize>,
}

impl AggregatorParams {
    /// There is an offset for each function, and it lies within the layout.
    pub open spec fn wf(self) -> bool {
        &&& self.offsets_aggregate_states@.len() > 0
        &&& self.layout matches Some(layout) ==> {
            &&& self.offsets_aggregate_states@.len() >= self.aggregate_functions@.len()
            &&& valid_layout(layout.size, layout.align)
            &&& forall|i: int|
                0 <= i < self.aggregate_functions@.len()
                    ==> #[trigger] self.offsets_aggregate_states@[i] <= layout.size
        }
    }
}

/// A call that the engine makes on behalf of an aggregator. `func` is the position of an aggregate
/// function.
#[derive(Debug, PartialEq, Eq)]
pub enum AggregateCall {
    /// Initialise a state.
    InitState { func: usize, place: StateAddr },
    /// Read a serialised state out of a string column of the block.
    ReadState { column: usize, row: usize },
    /// Deserialise the state that was read.
    Deserialize { func: usize, place: StateAddr },
    /// Merge the state at `from` into the one at `place`.
    Merge { func: usize, place: StateAddr, from: StateAddr },
    /// Look a column of the block up, as the next argument of the function.
    ArgumentColumn { func: usize, name: String },
    /// Accumulate the rows of the argument columns.
    Accumulate { func: usize, place: StateAddr, rows: usize },
    /// Create the result column of a function.
    CreateColumn { func: usize, capacity: usize },
    /// Append the result of a state to the result column of the function.
    MergeResult { func: usize, place: StateAddr },
    /// Append a serialised state to the byte buffer of [`StateColumns`], which is empty, and call
    /// [`StateColumns::finish_state`], so that the state is a column of its own.
    Serialize { func: usize, place: StateAddr },
    /// Drop a state.
    DropState { func: usize, place: StateAddr },
}

/// What [`SingleStateAggregator::generate`] asks for.
#[derive(Debug)]
pub enum Generated {
    /// There is no block. Make these calls and end.
    End(Vec<AggregateCall>),
    /// Make these calls and emit the block of the columns that they fill.
    Block(Vec<AggregateCall>),
}

/// An aggregator of whole inputs: `SELECT COUNT | SUM FROM table`. A partial aggregator emits
/// serialised states, a final one merges them and emits results.
#[derive(Debug)]
pub struct SingleStateAggregator<const FINAL: bool> {
    pub funcs: Vec<AggregateFunction>,
    pub arg_names: Vec<Vec<String>>,
    pub arena: Bump,
    pub places: Vec<StateAddr>,
    /// Where states are deserialised to before they are merged.
    pub temp_places: Vec<StateAddr>,
    pub is_finished: bool,
    pub states_dropped: bool,
}

pub type FinalSingleStateAggregator = SingleStateAggregator<true>;

pub type PartialSingleStateAggregator = SingleStateAggregator<false>;

/// The states lie at their offsets from `base`.
pub open spec fn placed(places: Seq<StateAddr>, base: int, offsets: Seq<usize>, n: nat) -> bool {
    &&& places.len() == n
    &&& forall|i: int| 0 <= i < n ==> (#[trigger] places[i]).addr == base + offsets[i]
}

/// Initialising the states.
pub open spec fn init_calls(places: Seq<StateAddr>) -> Seq<AggregateCall> {
    Seq::new(
        places.len(),
        |i: int| AggregateCall::InitState { func: i as usize, place: places[i] },
    )
}

/// Dropping those of the first `n` states that need it.
pub open spec fn drop_calls(
    funcs: Seq<AggregateFunction>,
    places: Seq<StateAddr>,
    n: int,
) -> Seq<AggregateCall>
    decreases n,
{
    if n <= 0 {
        Seq::empty()
    } else if funcs[n - 1].need_manual_drop_state {
        drop_calls(funcs, places, n - 1).push(
            AggregateCall::DropState { func: (n - 1) as usize, place: places[n - 1] },
        )
    } else {
        drop_calls(funcs, places, n - 1)
    }
}

/// Merging the serialised states of a block into the first `n` states: each is read from the
/// column of its function, deserialised to the temporary place and merged.
pub open spec fn merge_calls(
    places: Seq<StateAddr>,
    temp_places: Seq<StateAddr>,
    n: int,
) -> Seq<AggregateCall>
    decreases n,
{
    if n <= 0 {
        Seq::empty()
    } else {
        let func = (n - 1) as usize;
        merge_calls(places, temp_places, n - 1) + seq![
            AggregateCall::ReadState { column: func, row: 0 },
            AggregateCall::Deserialize { func, place: temp_places[n - 1] },
            AggregateCall::Merge { func, place: places[n - 1], from: temp_places[n - 1] },
        ]
    }
}

/// Looking the arguments of a function up.
pub open spec fn argument_calls(func: usize, names: Seq<String>, m: int) -> Seq<AggregateCall> {
    Seq::new(m as nat, |j: int| AggregateCall::ArgumentColumn { func, name: names[j] })
}

/// Accumulating the rows of a block into the first `n` states, each after its arguments have been
/// looked up.
pub open spec fn accumulate_calls(
    places: Seq<StateAddr>,
    arg_names: Seq<Vec<String>>,
    rows: usize,
    n: int,
) -> Seq<AggregateCall>
    decreases n,
{
    if n <= 0 {
        Seq::empty()
    } else {
        let func = (n - 1) as usize;
        let names = arg_names[n - 1]@;
        accumulate_calls(places, arg_names, rows, n - 1) + argument_calls(
            func,
            names,
            names.len() as int,
        ).push(AggregateCall::Accumulate { func, place: places[n - 1], rows })
    }
}

/// The rows that the result column of a function has room for at first.
pub const RESULT_CAPACITY: usize = 1024;

/// Creating the result columns of the first `n` functions.
pub open spec fn create_calls(n: int) -> Seq<AggregateCall> {
    Seq::new(
        n as nat,
        |i: int| AggregateCall::CreateColumn { func: i as usize, capacity: RESULT_CAPACITY },
    )
}

/// Appending the results of the first `n` states.
pub open spec fn result_calls(places: Seq<StateAddr>, n: int) -> Seq<AggregateCall> {
    Seq::new(
        n as nat,
        |i: int| AggregateCall::MergeResult { func: i as usize, place: places[i] },
    )
}

/// Serialising the first `n` states.
pub open spec fn serialize_calls(places: Seq<StateAddr>, n: int) -> Seq<AggregateCall> {
    Seq::new(
        n as nat,
        |i: int| AggregateCall::Serialize { func: i as usize, place: places[i] },
    )
}

/// A fresh aggregator: it has two aligned regions of memory that do not overlap, with the states at
/// their offsets in the one and the temporary states at the same offsets in the other.
pub open spec fn created<const FINAL: bool>(
    params: AggregatorParams,
    a: SingleStateAggregator<FINAL>,
) -> bool {
    let layout = params.layout->0;
    let n = params.aggregate_functions@.len();
    let offsets = params.offsets_aggregate_states@;
    let allocated = regions(a.arena);
    &&& a.wf()
    &&& a.funcs@ == params.aggregate_functions@
    &&& a.arg_names@.len() == params.aggregate_functions_arguments_name@.len()
    &&& forall|i: int|
        0 <= i < a.arg_names@.len() ==> (#[trigger] a.arg_names@[i])@
            == params.aggregate_functions_arguments_name@[i]@
    &&& !a.is_finished
    &&& !a.states_dropped
    &&& allocated.len() == 2
    &&& allocated[0].1 == layout.size && allocated[1].1 == layout.size
    &&& allocated[0].0 % layout.align as int == 0
    &&& allocated[1].0 % layout.align as int == 0
    &&& disjoint(allocated[0], allocated[1])
    &&& placed(a.places@, allocated[0].0, offsets, n)
    &&& placed(a.temp_places@, allocated[1].0, offsets, n)
}

impl<const FINAL: bool> SingleStateAggregator<FINAL> {
    /// There are two places for each function.
    pub open spec fn wf(self) -> bool {
        &&& self.places@.len() == self.funcs@.len()
        &&& self.temp_places@.len() == self.funcs@.len()
    }

    /// Everything but the two flags is the same.
    pub open spec fn same_but_flags(self, other: Self) -> bool {
        &&& self.funcs == other.funcs
        &&& self.arg_names == other.arg_names
        &&& self.arena == other.arena
        &&& self.places == other.places
        &&& self.temp_places == other.temp_places
    }

    /// The calls that dropping the states takes: none if they are dropped already.
    pub open spec fn pending_drops(self) -> Seq<AggregateCall> {
        let n = self.funcs@.len() as int;
        if self.states_dropped {
            Seq::empty()
        } else {
            drop_calls(self.funcs@, self.places@, n) + drop_calls(
                self.funcs@,
                self.temp_places@,
                n,
            )
        }
    }

    /// Sets an aggregator up, with two states per function in memory of their own. The states are
    /// to be initialised with [`SingleStateAggregator::init_states`].
    pub fn try_create(params: &AggregatorParams) -> (r: Result<Self, ErrorCode>)
        requires
            params.wf(),
        ensures
            r is Err <==> params.layout is None,
            match r {
                Err(ErrorCode::LayoutError(message)) => message@ == "layout shouldn't be None"@,
                Ok(a) => created(*params, a),
            },
    {
        let layout = match params.layout {
            Some(layout) => layout,
            None => {
                return Err(ErrorCode::LayoutError("layout shouldn't be None".to_owned()));
            },
        };
        let mut arena = arena_new();
        let base: usize = alloc_layout(&mut arena, layout.size, layout.align);
        let places = place_states(base, params, Ghost(layout.size));
        let temp_base: usize = alloc_layout(&mut arena, layout.size, layout.align);
        let temp_places = place_states(temp_base, params, Ghost(layout.size));
        let ghost allocated = regions(arena);
        assert(allocated =~= seq![
            (base as int, layout.size as int),
            (temp_base as int, layout.size as int),
        ]);
        Ok(
            SingleStateAggregator {
                funcs: copy_functions(&params.aggregate_functions),
                arg_names: copy_names(&params.aggregate_functions_arguments_name),
                arena,
                places,
                temp_places,
                is_finished: false,
                states_dropped: false,
            },
        )
    }

    /// The calls that initialise the states.
    pub fn init_states(&self) -> (r: Vec<AggregateCall>)
        ensures
            r@ == init_calls(self.places@) + init_calls(self.temp_places@),
    {
        let mut calls: Vec<AggregateCall> = Vec::new();
        let mut i: usize = 0;
        while i < self.places.len()
            invariant
                i <= self.places@.len(),
                calls@ == init_calls(self.places@).take(i as int),
            decreases self.places@.len() - i,
        {
            calls.push(AggregateCall::InitState { func: i, place: self.places[i] });
            i = i + 1;
            assert(calls@ =~= init_calls(self.places@).take(i as int));
        }
        let mut j: usize = 0;
        assert(calls@ =~= init_calls(self.places@) + init_calls(self.temp_places@).take(0));
        while j < self.temp_places.len()
            invariant
                j <= self.temp_places@.len(),
                calls@ == init_calls(self.places@) + init_calls(self.temp_places@).take(j as int),
            decreases self.temp_places@.len() - j,
        {
            calls.push(AggregateCall::InitState { func: j, place: self.temp_places[j] });
            j = j + 1;
            assert(calls@ =~= init_calls(self.places@) + init_calls(self.temp_places@).take(
                j as int,
            ));
        }
        assert(init_calls(self.temp_places@).take(j as int) =~= init_calls(self.temp_places@));
        calls
    }

    /// Drops the states, unless they are dropped already: the calls that it takes.
    pub fn drop_states(&mut self) -> (r: Vec<AggregateCall>)
        requires
            old(self).wf(),
        ensures
            r@ == old(self).pending_drops(),
            final(self).states_dropped,
            final(self).is_finished == old(self).is_finished,
            final(self).same_but_flags(*old(self)),
    {
        let mut calls: Vec<AggregateCall> = Vec::new();
        if !self.states_dropped {
            push_drops(&mut calls, &self.funcs, &self.places);
            push_drops(&mut calls, &self.funcs, &self.temp_places);
            self.states_dropped = true;
        }
        calls
    }
}

impl SingleStateAggregator<true> {
    /// The name of the final aggregator.
    pub fn name() -> (r: &'static str)
        ensures
            r@ == "FinalSingleStateAggregator"@,
    {
        "FinalSingleStateAggregator"
    }

    /// The calls that merge a block of serialised states.
    pub fn consume(&self) -> (r: Vec<AggregateCall>)
        requires
            self.wf(),
        ensures
            r@ == merge_calls(self.places@, self.temp_places@, self.funcs@.len() as int),
    {
        let mut calls: Vec<AggregateCall> = Vec::new();
        let mut index: usize = 0;
        while index < self.funcs.len()
            invariant
                self.wf(),
                index <= self.funcs@.len(),
                calls@ == merge_calls(self.places@, self.temp_places@, index as int),
            decreases self.funcs@.len() - index,
        {
            let place = self.places[index];
            let temp_addr = self.temp_places[index];
            calls.push(AggregateCall::ReadState { column: index, row: 0 });
            calls.push(AggregateCall::Deserialize { func: index, place: temp_addr });
            calls.push(AggregateCall::Merge { func: index, place, from: temp_addr });
            index = index + 1;
            assert(calls@ =~= merge_calls(self.places@, self.temp_places@, index as int));
        }
        calls
    }

    /// The calls that emit the results, the first time; then the end.
    pub fn generate(&mut self) -> (r: Generated)
        requires
            old(self).wf(),
        ensures
            final_generated(*old(self), *final(self), r),
    {
        let mut calls: Vec<AggregateCall> = Vec::new();
        if self.is_finished {
            return Generated::End(calls);
        }
        self.is_finished = true;
        let mut i: usize = 0;
        while i < self.funcs.len()
            invariant
                i <= self.funcs@.len(),
                calls@ == create_calls(i as int),
            decreases self.funcs@.len() - i,
        {
            calls.push(AggregateCall::CreateColumn { func: i, capacity: RESULT_CAPACITY });
            i = i + 1;
            assert(calls@ =~= create_calls(i as int));
        }
        let ghost n = self.funcs@.len() as int;
        let mut index: usize = 0;
        assert(calls@ =~= create_calls(n) + result_calls(self.places@, 0));
        while index < self.funcs.len()
            invariant
                self.wf(),
                n == self.funcs@.len(),
                index <= n,
                calls@ == create_calls(n) + result_calls(self.places@, index as int),
            decreases n - index,
        {
            calls.push(AggregateCall::MergeResult { func: index, place: self.places[index] });
            index = index + 1;
            assert(calls@ =~= create_calls(n) + result_calls(self.places@, index as int));
        }
        Generated::Block(calls)
    }
}

impl SingleStateAggregator<false> {
    /// The name of the partial aggregator.
    pub fn name() -> (r: &'static str)
        ensures
            r@ == "PartialSingleStateAggregator"@,
    {
        "PartialSingleStateAggregator"
    }

    /// The calls that accumulate a block of `rows` rows.
    pub fn consume(&self, rows: usize) -> (r: Vec<AggregateCall>)
        requires
            self.wf(),
            self.arg_names@.len() >= self.funcs@.len(),
        ensures
            r@ == accumulate_calls(
                self.places@,
                self.arg_names@,
                rows,
                self.funcs@.len() as int,
            ),
    {
        let mut calls: Vec<AggregateCall> = Vec::new();
        let mut idx: usize = 0;
        while idx < self.funcs.len()
            invariant
                self.wf(),
                self.arg_names@.len() >= self.funcs@.len(),
                idx <= self.funcs@.len(),
                calls@ == accumulate_calls(self.places@, self.arg_names@, rows, idx as int),
            decreases self.funcs@.len() - idx,
        {
            let ghost before = calls@;
            let ghost names = self.arg_names@[idx as int]@;
            let mut j: usize = 0;
            assert(calls@ =~= before + argument_calls(idx, names, 0));
            while j < self.arg_names[idx].len()
                invariant
                    idx < self.arg_names@.len(),
                    names == self.arg_names@[idx as int]@,
                    j <= names.len(),
                    calls@ == before + argument_calls(idx, names, j as int),
                decreases names.len() - j,
            {
                let name = self.arg_names[idx][j].clone();
                calls.push(AggregateCall::ArgumentColumn { func: idx, name });
                j = j + 1;
                assert(calls@ =~= before + argument_calls(idx, names, j as int));
            }
            let place = self.places[idx];
            calls.push(AggregateCall::Accumulate { func: idx, place, rows });
            idx = idx + 1;
            assert(calls@ =~= accumulate_calls(self.places@, self.arg_names@, rows, idx as int));
        }
        calls
    }

    /// The calls that emit the serialised states, the first time; then the end, which drops the
    /// states.
    pub fn generate(&mut self) -> (r: Generated)
        requires
            old(self).wf(),
        ensures
            partial_generated(*old(self), *final(self), r),
    {
        if self.is_finished {
            return Generated::End(self.drop_states());
        }
        self.is_finished = true;
        let mut calls: Vec<AggregateCall> = Vec::new();
        let mut idx: usize = 0;
        while idx < self.funcs.len()
            invariant
                self.wf(),
                idx <= self.funcs@.len(),
                calls@ == serialize_calls(self.places@, idx as int),
            decreases self.funcs@.len() - idx,
        {
            calls.push(AggregateCall::Serialize { func: idx, place: self.places[idx] });
            idx = idx + 1;
            assert(calls@ =~= serialize_calls(self.places@, idx as int));
        }
        Generated::Block(calls)
    }
}

/// How a final aggregator emits.
pub open spec fn final_generated(
    before: FinalSingleStateAggregator,
    after: FinalSingleStateAggregator,
    r: Generated,
) -> bool {
    let n = before.funcs@.len() as int;
    &&& after.is_finished
    &&& after.states_dropped == before.states_dropped
    &&& after.same_but_flags(before)
    &&& match r {
        Generated::End(calls) => before.is_finished && calls@.len() == 0,
        Generated::Block(calls) => !before.is_finished && calls@ == create_calls(n) + result_calls(
            before.places@,
            n,
        ),
    }
}

/// How a partial aggregator emits.
pub open spec fn partial_generated(
    before: PartialSingleStateAggregator,
    after: PartialSingleStateAggregator,
    r: Generated,
) -> bool {
    &&& after.is_finished
    &&& after.states_dropped == (before.states_dropped || before.is_finished)
    &&& after.same_but_flags(before)
    &&& match r {
        Generated::End(calls) => before.is_finished && calls@ == before.pending_drops(),
        Generated::Block(calls) => !before.is_finished && calls@ == serialize_calls(
            before.places@,
            before.funcs@.len() as int,
        ),
    }
}

/// The addresses of the states in the region at `base`.
fn place_states(base: usize, params: &AggregatorParams, Ghost(size): Ghost<usize>) -> (r: Vec<
    StateAddr,
>)
    requires
        params.offsets_aggregate_states@.len() >= params.aggregate_functions@.len(),
        base + size <= usize::MAX,
        forall|i: int|
            0 <= i < params.aggregate_functions@.len()
                ==> #[trigger] params.offsets_aggregate_states@[i] <= size,
    ensures
        placed(
            r@,
            base as int,
            params.offsets_aggregate_states@,
            params.aggregate_functions@.len(),
        ),
{
    let place = StateAddr { addr: base };
    let mut places: Vec<StateAddr> = Vec::new();
    let mut idx: usize = 0;
    while idx < params.aggregate_functions.len()
        invariant
            idx <= params.aggregate_functions@.len(),
            params.offsets_aggregate_states@.len() >= params.aggregate_functions@.len(),
            place.addr == base,
            base + size <= usize::MAX,
            forall|i: int|
                0 <= i < params.aggregate_functions@.len()
                    ==> #[trigger] params.offsets_aggregate_states@[i] <= size,
            placed(places@, base as int, params.offsets_aggregate_states@, idx as nat),
        decreases params.aggregate_functions@.len() - idx,
    {
        places.push(place.next(params.offsets_aggregate_states[idx]));
        idx = idx + 1;
    }
    places
}

fn copy_functions(funcs: &Vec<AggregateFunction>) -> (r: Vec<AggregateFunction>)
    ensures
        r@ == funcs@,
{
    let mut copy: Vec<AggregateFunction> = Vec::new();
    let mut i: usize = 0;
    while i < funcs.len()
        invariant
            i <= funcs@.len(),
            copy@ == funcs@.take(i as int),
        decreases funcs@.len() - i,
    {
        copy.push(funcs[i]);
        i = i + 1;
        assert(copy@ =~= funcs@.take(i as int));
    }
    assert(copy@ =~= funcs@);
    copy
}

fn copy_names(names: &Vec<Vec<String>>) -> (r: Vec<Vec<String>>)
    ensures
        r@.len() == names@.len(),
        forall|i: int| 0 <= i < names@.len() ==> (#[trigger] r@[i])@ == names@[i]@,
{
    let mut copy: Vec<Vec<String>> = Vec::new();
    let mut i: usize = 0;
    while i < names.len()
        invariant
            i <= names@.len(),
            copy@.len() == i,
            forall|k: int| 0 <= k < i ==> (#[trigger] copy@[k])@ == names@[k]@,
        decreases names@.len() - i,
    {
        let mut row: Vec<String> = Vec::new();
        let mut j: usize = 0;
        while j < names[i].len()
            invariant
                i < names@.len(),
                j <= names@[i as int]@.len(),
                row@ == names@[i as int]@.take(j as int),
            decreases names@[i as int]@.len() - j,
        {
            row.push(names[i][j].clone());
            j = j + 1;
            assert(row@ =~= names@[i as int]@.take(j as int));
        }
        assert(row@ =~= names@[i as int]@);
        copy.push(row);
        i = i + 1;
    }
    copy
}

fn push_drops(
    calls: &mut Vec<AggregateCall>,
    funcs: &Vec<AggregateFunction>,
    places: &Vec<StateAddr>,
)
    requires
        places@.len() == funcs@.len(),
    ensures
        final(calls)@ == old(calls)@ + drop_calls(funcs@, places@, funcs@.len() as int),
{
    let mut i: usize = 0;
    while i < funcs.len()
        invariant
            i <= funcs@.len(),
            places@.len() == funcs@.len(),
            calls@ == old(calls)@ + drop_calls(funcs@, places@, i as int),
        decreases funcs@.len() - i,
    {
        if funcs[i].need_manual_drop_state {
            calls.push(AggregateCall::DropState { func: i, place: places[i] });
        }
        i = i + 1;
        assert(calls@ =~= old(calls)@ + drop_calls(funcs@, places@, i as int));
    }
}

/// What reporting the outcome of a call does to a run.
pub open spec fn reported<E>(before: CallRun, after: CallRun, outcome: Result<(), E>) -> bool {
    &&& after.calls == before.calls
    &&& after.done == if outcome is Ok && before.done < before.calls@.len() {
        before.done + 1
    } else {
        before.calls@.len() as int
    }
}

/// A run through a list of calls, which ends early at the first call that fails.
#[derive(Debug)]
pub struct CallRun {
    pub calls: Vec<AggregateCall>,
    pub done: usize,
}

impl CallRun {
    pub open spec fn wf(self) -> bool {
        self.done <= self.calls@.len()
    }

    /// A run that has made no call.
    pub fn new(calls: Vec<AggregateCall>) -> (r: CallRun)
        ensures
            r.wf(),
            r.calls == calls,
            r.done == 0,
    {
        CallRun { calls, done: 0 }
    }

    /// The call to make next, if any is left.
    pub fn current(&self) -> (r: Option<&AggregateCall>)
        requires
            self.wf(),
        ensures
            match r {
                Some(call) => {
                    &&& self.done < self.calls@.len()
                    &&& *call == self.calls@[self.done as int]
                },
                None => self.done == self.calls@.len(),
            },
    {
        if self.done < self.calls.len() {
            Some(&self.calls[self.done])
        } else {
            None
        }
    }

    /// Goes on after a call was made, or ends with the error of the call.
    pub fn report<E>(&mut self, outcome: Result<(), E>) -> (r: Result<(), E>)
        requires
            old(self).wf(),
        ensures
            reported(*old(self), *final(self), outcome),
            r == outcome,
            final(self).wf(),
            final(self).calls == old(self).calls,
            final(self).done == if outcome is Ok && old(self).done < old(self).calls@.len() {
                old(self).done + 1
            } else {
                old(self).calls@.len() as int
            },
    {
        if outcome.is_ok() && self.done < self.calls.len() {
            self.done = self.done + 1;
        } else {
            self.done = self.calls.len();
        }
        outcome
    }
}

#[verifier::external_type_specification]
#[verifier::external_body]
pub struct ExBytesMut(bytes::BytesMut);

/// The bytes that a buffer holds.
pub uninterp spec fn buffered(buffer: BytesMut) -> Seq<u8>;

/// `BytesMut::new`: an empty buffer.
#[verifier::external_body]
fn buffer_new() -> (r: BytesMut)
    ensures
        buffered(r) == Seq::<u8>::empty(),
{
    BytesMut::new()
}

/// `<BytesMut as Deref>::deref`: the bytes of a buffer, here as a vector of their own.
#[verifier::external_body]
fn buffer_bytes(buffer: &BytesMut) -> (r: Vec<u8>)
    ensures
        r@ == buffered(*buffer),
{
    buffer[..].to_vec()
}

/// `BytesMut::clear`: drops the bytes of a buffer.
#[verifier::external_body]
fn buffer_clear(buffer: &mut BytesMut)
    ensures
        buffered(*final(buffer)) == Seq::<u8>::empty(),
{
    buffer.clear()
}

/// The columns of serialised states that a partial aggregator emits. A function serialises its
/// state into `bytes`. Each [`AggregateCall::Serialize`] is followed by
/// [`StateColumns::finish_state`], before the next one.
#[derive(Debug)]
pub struct StateColumns {
    pub bytes: BytesMut,
    pub columns: Vec<Vec<Vec<u8>>>,
}

/// What finishing a state does to the columns.
pub open spec fn state_finished(before: StateColumns, after: StateColumns) -> bool {
    &&& buffered(after.bytes).len() == 0
    &&& after.columns@.len() == before.columns@.len() + 1
    &&& after.columns@.drop_last() == before.columns@
    &&& after.columns@.last()@.len() == 1
    &&& after.columns@.last()@[0]@ == buffered(before.bytes)
}

impl StateColumns {
    /// No column, and nothing in the buffer.
    pub fn new() -> (r: StateColumns)
        ensures
            buffered(r.bytes).len() == 0,
            r.columns@.len() == 0,
    {
        StateColumns { bytes: buffer_new(), columns: Vec::new() }
    }

    /// Adds the column of one value that the buffer holds, and empties the buffer for the next
    /// state.
    pub fn finish_state(&mut self)
        ensures
            state_finished(*old(self), *final(self)),
            buffered(final(self).bytes).len() == 0,
            final(self).columns@.len() == old(self).columns@.len() + 1,
            final(self).columns@.drop_last() == old(self).columns@,
            final(self).columns@.last()@.len() == 1,
            final(self).columns@.last()@[0]@ == buffered(old(self).bytes),
    {
        let mut column: Vec<Vec<u8>> = Vec::new();
        column.push(buffer_bytes(&self.bytes));
        buffer_clear(&mut self.bytes);
        self.columns.push(column);
        assert(self.columns@.drop_last() =~= old(self).columns@);
    }
}

/// A block is emitted at most once: whoever has emitted is at the end.
pub proof fn final_emits_once(
    first: FinalSingleStateAggregator,
    second: FinalSingleStateAggregator,
    third: FinalSingleStateAggregator,
    r: Generated,
    s: Generated,
)
    requires
        final_generated(first, second, r),
        final_generated(second, third, s),
    ensures
        s is End,
{
}

/// A block of states is emitted at most once, the states are dropped by the second call at the
/// latest, and no later call drops them again.
pub proof fn partial_emits_once_and_drops_once(
    first: PartialSingleStateAggregator,
    second: PartialSingleStateAggregator,
    third: PartialSingleStateAggregator,
    fourth: PartialSingleStateAggregator,
    r: Generated,
    s: Generated,
    t: Generated,
)
    requires
        partial_generated(first, second, r),
        partial_generated(second, third, s),
        partial_generated(third, fourth, t),
    ensures
        s is End,
        third.states_dropped,
        t matches Generated::End(calls) && calls@.len() == 0,
        r is Block && !first.states_dropped ==> (s matches Generated::End(calls) && calls@
            == first.pending_drops()),
{
}

/// Each state that needs it is dropped exactly once, and no other: the call for the state of
/// function `i` is in the list if and only if the function asks for it, and the list is in the
/// order of the functions.
pub proof fn drops_each_state_once(
    funcs: Seq<AggregateFunction>,
    places: Seq<StateAddr>,
    n: int,
)
    requires
        0 <= n <= funcs.len() == places.len(),
        n <= usize::MAX,
    ensures
        forall|i: int|
            0 <= i < n ==> (#[trigger] funcs[i].need_manual_drop_state <==> drop_calls(
                funcs,
                places,
                n,
            ).contains(AggregateCall::DropState { func: i as usize, place: places[i] })),
        forall|k: int|
            0 <= k < drop_calls(funcs, places, n).len() ==> {
                let call = #[trigger] drop_calls(funcs, places, n)[k];
                &&& call matches AggregateCall::DropState { func, place }
                &&& func < n
                &&& place == places[func as int]
            },
        forall|k: int, l: int|
            0 <= k < l < drop_calls(funcs, places, n).len() ==> {
                let a = #[trigger] drop_calls(funcs, places, n)[k];
                let b = #[trigger] drop_calls(funcs, places, n)[l];
                a->DropState_func < b->DropState_func
            },
    decreases n,
{
    if n > 0 {
        drops_each_state_once(funcs, places, n - 1);
        let before = drop_calls(funcs, places, n - 1);
        let after = drop_calls(funcs, places, n);
        assert forall|i: int| 0 <= i < n implies (#[trigger] funcs[i].need_manual_drop_state
            <==> after.contains(
            AggregateCall::DropState { func: i as usize, place: places[i] },
        )) by {
            let call = AggregateCall::DropState { func: i as usize, place: places[i] };
            if i < n - 1 {
                if before.contains(call) {
                    let k = choose|k: int| 0 <= k < before.len() && before[k] == call;
                    assert(after[k] == call);
                }
                if after.contains(call) {
                    let k = choose|k: int| 0 <= k < after.len() && after[k] == call;
                    assert(k < before.len());
                    assert(before[k] == call);
                }
            } else {
                if after.len() > before.len() {
                    assert(after[before.len() as int] == call);
                }
                if after.contains(call) {
                    let k = choose|k: int| 0 <= k < after.len() && after[k] == call;
                    if k < before.len() {
                        assert(before[k] == call);
                    }
                }
            }
        }
    }
}

/// Each serialised state of a block is read from the column of its function, deserialised to the
/// temporary place of the function and merged into the state of the function, in this order and
/// function after function.
pub proof fn merges_function_after_function(
    places: Seq<StateAddr>,
    temp_places: Seq<StateAddr>,
    n: int,
    i: int,
)
    requires
        0 <= i < n,
    ensures
        ({
            let calls = merge_calls(places, temp_places, n);
            let func = i as usize;
            &&& calls.len() == 3 * n
            &&& calls[3 * i] == AggregateCall::ReadState { column: func, row: 0 }
            &&& calls[3 * i + 1] == AggregateCall::Deserialize { func, place: temp_places[i] }
            &&& calls[3 * i + 2] == AggregateCall::Merge {
                func,
                place: places[i],
                from: temp_places[i],
            }
        }),
    decreases n,
{
    if i < n - 1 {
        merges_function_after_function(places, temp_places, n - 1, i);
    } else if n > 1 {
        merges_function_after_function(places, temp_places, n - 1, i - 1);
    }
}

/// The state of a function travels in the column at the position of the function: a partial
/// aggregator serialises it as the state number `i`, and a final one reads it from the column
/// number `i` for the same function.
pub proof fn states_travel_by_position(
    sent: Seq<StateAddr>,
    places: Seq<StateAddr>,
    temp_places: Seq<StateAddr>,
    n: int,
    i: int,
)
    requires
        0 <= i < n,
    ensures
        serialize_calls(sent, n).len() == n,
        serialize_calls(sent, n)[i] == (AggregateCall::Serialize {
            func: i as usize,
            place: sent[i],
        }),
        merge_calls(places, temp_places, n)[3 * i] == (AggregateCall::ReadState {
            column: i as usize,
            row: 0,
        }),
        merge_calls(places, temp_places, n)[3 * i + 1] == (AggregateCall::Deserialize {
            func: i as usize,
            place: temp_places[i],
        }),
{
    merges_function_after_function(places, temp_places, n, i);
}

/// A state and the temporary state of the same function have different addresses, unless the states
/// of all functions together take no byte.
pub proof fn temporary_states_have_their_own_places<const FINAL: bool>(
    params: AggregatorParams,
    a: SingleStateAggregator<FINAL>,
    i: int,
)
    requires
        created(params, a),
        params.layout is Some,
        params.layout->0.size > 0,
        0 <= i < a.funcs@.len(),
    ensures
        a.places@[i] != a.temp_places@[i],
{
    let offsets = params.offsets_aggregate_states@;
    assert(a.places@[i].addr == regions(a.arena)[0].0 + offsets[i]);
    assert(a.temp_places@[i].addr == regions(a.arena)[1].0 + offsets[i]);
}

/// A state that is deserialised never overlaps the state that it is merged into: what lies between
/// a temporary state and the end of its memory is apart from what lies between a state and the end
/// of its memory.
pub proof fn temporary_states_are_apart<const FINAL: bool>(
    params: AggregatorParams,
    a: SingleStateAggregator<FINAL>,
    i: int,
    j: int,
)
    requires
        created(params, a),
        params.layout is Some,
        0 <= i < a.funcs@.len(),
        0 <= j < a.funcs@.len(),
        params.wf(),
    ensures
        ({
            let room = |k: int| params.layout->0.size - params.offsets_aggregate_states@[k];
            let place = a.places@[i].addr;
            let temp = a.temp_places@[j].addr;
            disjoint((place as int, room(i)), (temp as int, room(j)))
        }),
{
    let offsets = params.offsets_aggregate_states@;
    assert(a.places@[i].addr == regions(a.arena)[0].0 + offsets[i]);
    assert(a.temp_places@[j].addr == regions(a.arena)[1].0 + offsets[j]);
}

/// The states of an aggregator lie as far apart as their offsets, and so do the temporary states.
/// The first region of the arena holds the states, the second one the temporary states.
pub proof fn states_lie_as_far_apart_as_their_offsets<const FINAL: bool>(
    params: AggregatorParams,
    a: SingleStateAggregator<FINAL>,
    i: int,
    j: int,
)
    requires
        created(params, a),
        0 <= i < params.aggregate_functions@.len(),
        0 <= j < params.aggregate_functions@.len(),
    ensures
        a.places@.len() == params.aggregate_functions@.len(),
        a.temp_places@.len() == params.aggregate_functions@.len(),
        a.places@[j].addr - a.places@[i].addr == params.offsets_aggregate_states@[j]
            - params.offsets_aggregate_states@[i],
        a.temp_places@[j].addr - a.temp_places@[i].addr == params.offsets_aggregate_states@[j]
            - params.offsets_aggregate_states@[i],
        a.places@[i].addr - regions(a.arena)[0].0 == params.offsets_aggregate_states@[i],
        a.temp_places@[i].addr - regions(a.arena)[1].0 == params.offsets_aggregate_states@[i],
{
}

/// States that do not overlap in the layout do not overlap in memory, nor do the temporary states.
/// `sizes` is the number of bytes that each function keeps at its offset.
pub proof fn states_apart_in_the_layout_are_apart_in_memory<const FINAL: bool>(
    params: AggregatorParams,
    a: SingleStateAggregator<FINAL>,
    sizes: Seq<nat>,
    i: int,
    j: int,
)
    requires
        created(params, a),
        0 <= i < params.aggregate_functions@.len(),
        0 <= j < params.aggregate_functions@.len(),
        params.offsets_aggregate_states@[i] + sizes[i] <= params.offsets_aggregate_states@[j],
    ensures
        a.places@[i].addr + sizes[i] <= a.places@[j].addr,
        a.temp_places@[i].addr + sizes[i] <= a.temp_places@[j].addr,
{
}

/// A state and a temporary state, of whichever functions, do not overlap if they lie in the layout,
/// and both lie in the memory that the arena has handed out for them.
pub proof fn states_and_temporary_states_are_apart_in_memory<const FINAL: bool>(
    params: AggregatorParams,
    a: SingleStateAggregator<FINAL>,
    sizes: Seq<nat>,
    i: int,
    j: int,
)
    requires
        created(params, a),
        params.layout is Some,
        0 <= i < params.aggregate_functions@.len(),
        0 <= j < params.aggregate_functions@.len(),
        params.offsets_aggregate_states@[i] + sizes[i] <= params.layout->0.size,
        params.offsets_aggregate_states@[j] + sizes[j] <= params.layout->0.size,
    ensures
        regions(a.arena).len() == 2,
        regions(a.arena)[0].1 == params.layout->0.size,
        regions(a.arena)[1].1 == params.layout->0.size,
        regions(a.arena)[0].0 % params.layout->0.align as int == 0,
        regions(a.arena)[1].0 % params.layout->0.align as int == 0,
        regions(a.arena)[0].0 <= a.places@[i].addr,
        a.places@[i].addr + sizes[i] <= regions(a.arena)[0].0 + regions(a.arena)[0].1,
        regions(a.arena)[1].0 <= a.temp_places@[j].addr,
        a.temp_places@[j].addr + sizes[j] <= regions(a.arena)[1].0 + regions(a.arena)[1].1,
        a.places@[i].addr + sizes[i] <= a.temp_places@[j].addr || a.temp_places@[j].addr + sizes[j]
            <= a.places@[i].addr,
{
}

/// A new aggregator has the functions and the argument names of its parameters. It has neither
/// emitted nor dropped anything.
pub proof fn new_aggregator_holds_its_parameters<const FINAL: bool>(
    params: AggregatorParams,
    a: SingleStateAggregator<FINAL>,
)
    requires
        created(params, a),
    ensures
        a.funcs@ == params.aggregate_functions@,
        a.arg_names@.len() == params.aggregate_functions_arguments_name@.len(),
        forall|i: int|
            0 <= i < params.aggregate_functions_arguments_name@.len()
                ==> (#[trigger] a.arg_names@[i])@ == params.aggregate_functions_arguments_name@[i]@,
        !a.is_finished,
        !a.states_dropped,
{
}

/// Setting up initialises the state and the temporary state of each function, each once.
pub proof fn setting_up_initialises_every_state(
    places: Seq<StateAddr>,
    temp_places: Seq<StateAddr>,
    i: int,
)
    requires
        0 <= i < places.len() == temp_places.len(),
    ensures
        ({
            let calls = init_calls(places) + init_calls(temp_places);
            &&& calls.len() == 2 * places.len()
            &&& calls[i] == AggregateCall::InitState { func: i as usize, place: places[i] }
            &&& calls[places.len() + i] == AggregateCall::InitState {
                func: i as usize,
                place: temp_places[i],
            }
        }),
{
}

/// Consuming a block of input takes, function after function, the lookup of each argument by its
/// name, in their order, and then one accumulation of all rows into the state of the function. The
/// calls for the function `i` begin at `at[i]`.
pub proof fn consuming_accumulates_function_after_function(
    places: Seq<StateAddr>,
    arg_names: Seq<Vec<String>>,
    rows: usize,
    n: int,
) -> (at: Seq<int>)
    requires
        0 <= n <= places.len(),
        n <= arg_names.len(),
    ensures
        at.len() == n + 1,
        at[0] == 0,
        accumulate_calls(places, arg_names, rows, n).len() == at[n],
        forall|i: int|
            #![trigger places[i]]
            #![trigger arg_names[i]]
            0 <= i < n ==> {
                &&& at[i + 1] == at[i] + arg_names[i]@.len() + 1
                &&& 0 <= at[i] < at[i + 1] <= at[n]
                &&& accumulate_calls(places, arg_names, rows, n)[at[i + 1] - 1]
                    == AggregateCall::Accumulate { func: i as usize, place: places[i], rows }
                &&& accumulate_calls(places, arg_names, rows, n).subrange(at[i], at[i + 1] - 1)
                    == arg_names[i]@.map_values(
                    |name: String| AggregateCall::ArgumentColumn { func: i as usize, name },
                )
            },
    decreases n,
{
    if n <= 0 {
        seq![0int]
    } else {
        let before = consuming_accumulates_function_after_function(
            places,
            arg_names,
            rows,
            n - 1,
        );
        let old_calls = accumulate_calls(places, arg_names, rows, n - 1);
        let calls = accumulate_calls(places, arg_names, rows, n);
        let at = before.push(before[n - 1] + arg_names[n - 1]@.len() + 1);
        assert forall|i: int|
            #![trigger places[i]]
            #![trigger arg_names[i]]
            0 <= i < n implies {
            &&& at[i + 1] == at[i] + arg_names[i]@.len() + 1
            &&& 0 <= at[i] < at[i + 1] <= at[n]
            &&& calls[at[i + 1] - 1] == AggregateCall::Accumulate {
                func: i as usize,
                place: places[i],
                rows,
            }
            &&& calls.subrange(at[i], at[i + 1] - 1) == arg_names[i]@.map_values(
                |name: String| AggregateCall::ArgumentColumn { func: i as usize, name },
            )
        } by {
            if i < n - 1 {
                assert(before[i + 1] == before[i] + arg_names[i]@.len() + 1);
                assert(at[i] == before[i] && at[i + 1] == before[i + 1]);
                assert(calls.subrange(at[i], at[i + 1] - 1) =~= old_calls.subrange(
                    at[i],
                    at[i + 1] - 1,
                ));
            } else {
                assert(old_calls.len() == before[n - 1]);
                if n - 1 > 0 {
                    assert(before[n - 2 + 1] == before[n - 2] + arg_names[n - 2]@.len() + 1);
                }
                assert(calls.subrange(at[i], at[i + 1] - 1) =~= arg_names[i]@.map_values(
                    |name: String| AggregateCall::ArgumentColumn { func: i as usize, name },
                ));
            }
        }
        at
    }
}

/// A final aggregator that has not emitted creates a column for each function, for which it
/// reserves 1024 rows, and puts the result of the state of each function into the column of the
/// function.
/// Then it is finished. One that has emitted asks for nothing. Neither drops a state.
pub proof fn final_aggregator_emits_the_result_of_each_function(
    before: FinalSingleStateAggregator,
    after: FinalSingleStateAggregator,
    r: Generated,
)
    requires
        before.places@.len() == before.funcs@.len(),
        final_generated(before, after, r),
    ensures
        after.is_finished,
        after.states_dropped == before.states_dropped,
        after.places == before.places,
        after.temp_places == before.temp_places,
        after.funcs == before.funcs,
        r is Block <==> !before.is_finished,
        r matches Generated::End(calls) ==> calls@.len() == 0,
        r matches Generated::Block(calls) ==> {
            let n = before.funcs@.len();
            &&& calls@.len() == 2 * n
            &&& forall|i: int|
                #![trigger before.places@[i]]
                #![trigger before.funcs@[i]]
                0 <= i < n ==> {
                    &&& calls@[i] == AggregateCall::CreateColumn {
                        func: i as usize,
                        capacity: 1024,
                    }
                    &&& calls@[n + i] == AggregateCall::MergeResult {
                        func: i as usize,
                        place: before.places@[i],
                    }
                }
        },
{
}

/// A partial aggregator that has not emitted serialises the state of each function, in the order of
/// the functions. Then it is finished. One that has emitted drops its states.
pub proof fn partial_aggregator_emits_the_state_of_each_function(
    before: PartialSingleStateAggregator,
    after: PartialSingleStateAggregator,
    r: Generated,
)
    requires
        before.places@.len() == before.funcs@.len(),
        partial_generated(before, after, r),
    ensures
        after.is_finished,
        after.places == before.places,
        after.temp_places == before.temp_places,
        after.funcs == before.funcs,
        r is Block <==> !before.is_finished,
        r is Block ==> after.states_dropped == before.states_dropped,
        r is End ==> after.states_dropped,
        r matches Generated::End(calls) ==> calls@ == before.pending_drops(),
        r matches Generated::Block(calls) ==> {
            &&& calls@.len() == before.funcs@.len()
            &&& forall|i: int|
                #![trigger before.places@[i]]
                #![trigger before.funcs@[i]]
                0 <= i < before.funcs@.len() ==> calls@[i] == (AggregateCall::Serialize {
                    func: i as usize,
                    place: before.places@[i],
                })
        },
{
}

/// Dropping states that are not dropped yet takes a call for the state, and one for the temporary
/// state, of each function that needs it, and no other: first those of the states, which are the
/// first `m` calls, then those of the temporary states, both in the order of the functions. States
/// that are dropped already take no call.
pub proof fn dropping_drops_what_needs_it<const FINAL: bool>(
    a: SingleStateAggregator<FINAL>,
    i: int,
) -> (m: int)
    requires
        a.places@.len() == a.funcs@.len(),
        a.temp_places@.len() == a.funcs@.len(),
        0 <= i < a.funcs@.len(),
    ensures
        a.states_dropped ==> a.pending_drops().len() == 0,
        !a.states_dropped ==> {
            let calls = a.pending_drops();
            &&& 0 <= m <= calls.len()
            &&& a.funcs@[i].need_manual_drop_state <==> calls.take(m).contains(
                AggregateCall::DropState { func: i as usize, place: a.places@[i] },
            )
            &&& a.funcs@[i].need_manual_drop_state <==> calls.skip(m).contains(
                AggregateCall::DropState { func: i as usize, place: a.temp_places@[i] },
            )
            &&& forall|k: int|
                0 <= k < calls.len() ==> {
                    let places = if k < m {
                        a.places@
                    } else {
                        a.temp_places@
                    };
                    &&& #[trigger] calls[k] matches AggregateCall::DropState { func, place }
                    &&& func < a.funcs@.len()
                    &&& place == places[func as int]
                    &&& a.funcs@[func as int].need_manual_drop_state
                }
            &&& forall|k: int, l: int|
                0 <= k < l < calls.len() && (l < m || m <= k)
                    ==> #[trigger] calls[k]->DropState_func < #[trigger] calls[l]->DropState_func
        },
{
    let n = a.funcs@.len() as int;
    let first = drop_calls(a.funcs@, a.places@, n);
    let second = drop_calls(a.funcs@, a.temp_places@, n);
    let m = first.len() as int;
    assert(a.funcs@.len() == a.funcs.len());
    drops_each_state_once(a.funcs@, a.places@, n);
    drops_each_state_once(a.funcs@, a.temp_places@, n);
    lemma_drops_are_needed(a.funcs@, a.places@, n);
    lemma_drops_are_needed(a.funcs@, a.temp_places@, n);
    if !a.states_dropped {
        let calls = a.pending_drops();
        assert(a.funcs@[i].need_manual_drop_state == a.funcs@[i].need_manual_drop_state);
        assert(calls.take(m) =~= first);
        assert(calls.skip(m) =~= second);
        assert forall|k: int| 0 <= k < calls.len() implies {
            let places = if k < m {
                a.places@
            } else {
                a.temp_places@
            };
            &&& #[trigger] calls[k] matches AggregateCall::DropState { func, place }
            &&& func < n
            &&& place == places[func as int]
            &&& a.funcs@[func as int].need_manual_drop_state
        } by {
            if k < m {
                assert(calls[k] == first[k]);
            } else {
                assert(calls[k] == second[k - m]);
            }
        }
        assert forall|k: int, l: int|
            0 <= k < l < calls.len() && (l < m || m
                <= k) implies #[trigger] calls[k]->DropState_func
            < #[trigger] calls[l]->DropState_func by {
            if l < m {
                assert(calls[k] == first[k] && calls[l] == first[l]);
            } else {
                assert(calls[k] == second[k - m] && calls[l] == second[l - m]);
            }
        }
    }
    m
}

proof fn lemma_drops_are_needed(funcs: Seq<AggregateFunction>, places: Seq<StateAddr>, n: int)
    requires
        0 <= n <= funcs.len() == places.len(),
        n <= usize::MAX,
    ensures
        forall|k: int|
            0 <= k < drop_calls(funcs, places, n).len() ==> {
                let call = #[trigger] drop_calls(funcs, places, n)[k];
                call matches AggregateCall::DropState { func, place } && func < n
                    && funcs[func as int].need_manual_drop_state
            },
    decreases n,
{
    if n > 0 {
        lemma_drops_are_needed(funcs, places, n - 1);
        let before = drop_calls(funcs, places, n - 1);
        let after = drop_calls(funcs, places, n);
        assert forall|k: int| 0 <= k < after.len() implies {
            let call = #[trigger] after[k];
            call matches AggregateCall::DropState { func, place } && func < n
                && funcs[func as int].need_manual_drop_state
        } by {
            if k < before.len() {
                assert(after[k] == before[k]);
            }
        }
    }
}

/// Emitting and dropping change nothing of an aggregator but its two flags.
pub proof fn nothing_but_flags_changes<const FINAL: bool>(
    before: SingleStateAggregator<FINAL>,
    after: SingleStateAggregator<FINAL>,
)
    requires
        after.same_but_flags(before),
    ensures
        after == (SingleStateAggregator::<FINAL> {
            is_finished: after.is_finished,
            states_dropped: after.states_dropped,
            ..before
        }),
{
}

/// A run makes the calls of its list one after the other. After `k` calls that succeeded it is at
/// the call number `k`; after one that failed it is at the end, where it stays.
pub proof fn a_run_goes_on_until_a_call_fails<E>(
    runs: Seq<CallRun>,
    outcomes: Seq<Result<(), E>>,
    k: int,
)
    requires
        runs.len() == outcomes.len() + 1,
        runs[0].done == 0,
        forall|j: int|
            0 <= j < outcomes.len() ==> reported(runs[j], runs[j + 1], #[trigger] outcomes[j]),
        0 <= k <= outcomes.len() <= runs[0].calls@.len(),
    ensures
        runs[k].calls == runs[0].calls,
        (forall|j: int| 0 <= j < k ==> #[trigger] outcomes[j] is Ok) ==> runs[k].done == k,
        (exists|j: int| 0 <= j < k && #[trigger] outcomes[j] is Err) ==> runs[k].done
            == runs[0].calls@.len(),
    decreases k,
{
    if k > 0 {
        a_run_goes_on_until_a_call_fails(runs, outcomes, k - 1);
        assert(reported(runs[k - 1], runs[k - 1 + 1], outcomes[k - 1]));
        if exists|j: int| 0 <= j < k && #[trigger] outcomes[j] is Err {
            let j = choose|j: int| 0 <= j < k && #[trigger] outcomes[j] is Err;
            if j < k - 1 {
                assert(0 <= j < k - 1 && outcomes[j] is Err);
            }
        }
    }
}

/// Finishing a state adds one column, of the one value that the buffer held, behind those that are
/// there, and leaves the buffer empty.
pub proof fn a_finished_state_is_a_column_of_its_own(before: StateColumns, after: StateColumns)
    requires
        state_finished(before, after),
    ensures
        after.columns@.len() == before.columns@.len() + 1,
        forall|c: int|
            0 <= c < before.columns@.len() ==> #[trigger] after.columns@[c] == before.columns@[c],
        after.columns@[before.columns@.len() as int]@.len() == 1,
        after.columns@[before.columns@.len() as int]@[0]@ == buffered(before.bytes),
        buffered(after.bytes) == Seq::<u8>::empty(),
{
    assert forall|c: int| 0 <= c < before.columns@.len() implies #[trigger] after.columns@[c]
        == before.columns@[c] by {
        assert(after.columns@.drop_last()[c] == before.columns@[c]);
    }
    assert(buffered(after.bytes) =~= Seq::<u8>::empty());
}

} // verus!
