//! What aggregation computes, whichever way its input is split: the calls that the aggregators ask
//! for, made on an abstract model of the aggregate functions.

use crate::aggregator::accumulate_calls;
use crate::aggregator::argument_calls;
use crate::aggregator::create_calls;
use crate::aggregator::created;
use crate::aggregator::final_generated;
use crate::aggregator::init_calls;
use crate::aggregator::merge_calls;
use crate::aggregator::partial_generated;
use crate::aggregator::result_calls;
use crate::aggregator::serialize_calls;
use crate::aggregator::states_and_temporary_states_are_apart_in_memory;
use crate::aggregator::states_lie_as_far_apart_as_their_offsets;
use crate::aggregator::AggregateCall;
use crate::aggregator::AggregatorParams;
use crate::aggregator::FinalSingleStateAggregator;
use crate::aggregator::Generated;
use crate::aggregator::PartialSingleStateAggregator;
use crate::aggregator::SingleStateAggregator;
use crate::arena::StateAddr;
use vstd::prelude::*;

verus! {

/// The aggregate functions, each given by its position: values of type `S` for states, `C` for
/// argument columns and `R` for results.
#[verifier::reject_recursive_types(S)]
#[verifier::reject_recursive_types(C)]
#[verifier::reject_recursive_types(R)]
pub struct Functions<S, C, R> {
    /// The bytes that a state takes.
    pub size: spec_fn(usize) -> nat,
    pub init: spec_fn(usize) -> S,
    pub accumulate: spec_fn(usize, S, Seq<C>, usize) -> S,
    pub serialize: spec_fn(usize, S) -> Seq<u8>,
    /// From the state that is overwritten and the bytes.
    pub deserialize: spec_fn(usize, S, Seq<u8>) -> S,
    pub merge: spec_fn(usize, S, S) -> S,
    pub result: spec_fn(usize, S) -> R,
}

/// A block of input: its columns by name, and the number of its rows.
#[verifier::reject_recursive_types(C)]
pub struct InputBlock<C> {
    pub column: spec_fn(String) -> C,
    pub rows: usize,
}

/// A block of serialised states: for each column its values.
pub type StateBlock = Seq<Seq<Seq<u8>>>;

/// The block that calls read from.
#[verifier::reject_recursive_types(C)]
pub enum Source<C> {
    Nothing,
    Input(InputBlock<C>),
    States(StateBlock),
}

/// What the calls work on: the states, by address, and what the calls of one list hand on to each
/// other and build up. Whatever writes a state to an address overwrites what is there, whichever
/// function it is from.
#[verifier::reject_recursive_types(S)]
#[verifier::reject_recursive_types(C)]
#[verifier::reject_recursive_types(R)]
pub struct Workspace<S, C, R> {
    pub states: Map<StateAddr, S>,
    pub data: Seq<u8>,
    pub arguments: Seq<C>,
    pub results: Seq<Seq<R>>,
    pub columns: StateBlock,
}

/// The workspace at the start of a list of calls.
pub open spec fn workspace<S, C, R>(states: Map<StateAddr, S>) -> Workspace<S, C, R> {
    Workspace {
        states,
        data: Seq::empty(),
        arguments: Seq::empty(),
        results: Seq::empty(),
        columns: Seq::empty(),
    }
}

/// The state of a function at an address. A state of no byte is always the same one.
pub open spec fn state_at<S, C, R>(
    f: Functions<S, C, R>,
    states: Map<StateAddr, S>,
    func: usize,
    place: StateAddr,
) -> S {
    if (f.size)(func) == 0 {
        (f.init)(func)
    } else {
        states[place]
    }
}

/// The states after a function has written one to an address. A state of no byte overwrites
/// nothing.
pub open spec fn with_state<S, C, R>(
    f: Functions<S, C, R>,
    states: Map<StateAddr, S>,
    func: usize,
    place: StateAddr,
    state: S,
) -> Map<StateAddr, S> {
    if (f.size)(func) == 0 {
        states
    } else {
        states.insert(place, state)
    }
}

/// What one call does. Serialising a state makes a column of it.
pub open spec fn called<S, C, R>(
    f: Functions<S, C, R>,
    w: Workspace<S, C, R>,
    call: AggregateCall,
    source: Source<C>,
) -> Workspace<S, C, R> {
    match call {
        AggregateCall::InitState { func, place } => Workspace {
            states: with_state(f, w.states, func, place, (f.init)(func)),
            ..w
        },
        AggregateCall::ReadState { column, row } => Workspace {
            data: source->States_0[column as int][row as int],
            ..w
        },
        AggregateCall::Deserialize { func, place } => Workspace {
            states: with_state(
                f,
                w.states,
                func,
                place,
                (f.deserialize)(func, state_at(f, w.states, func, place), w.data),
            ),
            ..w
        },
        AggregateCall::Merge { func, place, from } => Workspace {
            states: with_state(
                f,
                w.states,
                func,
                place,
                (f.merge)(
                    func,
                    state_at(f, w.states, func, place),
                    state_at(f, w.states, func, from),
                ),
            ),
            ..w
        },
        AggregateCall::ArgumentColumn { func, name } => Workspace {
            arguments: w.arguments.push((source->Input_0.column)(name)),
            ..w
        },
        AggregateCall::Accumulate { func, place, rows } => Workspace {
            states: with_state(
                f,
                w.states,
                func,
                place,
                (f.accumulate)(func, state_at(f, w.states, func, place), w.arguments, rows),
            ),
            arguments: Seq::empty(),
            ..w
        },
        AggregateCall::CreateColumn { func, capacity } => Workspace {
            results: w.results.push(Seq::empty()),
            ..w
        },
        AggregateCall::MergeResult { func, place } => Workspace {
            results: w.results.update(
                func as int,
                w.results[func as int].push((f.result)(func, state_at(f, w.states, func, place))),
            ),
            ..w
        },
        AggregateCall::Serialize { func, place } => Workspace {
            columns: w.columns.push(
                seq![(f.serialize)(func, state_at(f, w.states, func, place))],
            ),
            ..w
        },
        AggregateCall::DropState { func, place } => Workspace {
            states: if (f.size)(func) == 0 {
                w.states
            } else {
                w.states.remove(place)
            },
            ..w
        },
    }
}

/// What a list of calls does, if each of them succeeds.
pub open spec fn performed<S, C, R>(
    f: Functions<S, C, R>,
    w: Workspace<S, C, R>,
    calls: Seq<AggregateCall>,
    source: Source<C>,
) -> Workspace<S, C, R>
    decreases calls.len(),
{
    if calls.len() == 0 {
        w
    } else {
        called(f, performed(f, w, calls.drop_last(), source), calls.last(), source)
    }
}

/// The states of an aggregator that has been set up.
pub open spec fn initial_states<S, C, R>(
    f: Functions<S, C, R>,
    places: Seq<StateAddr>,
    temp_places: Seq<StateAddr>,
) -> Map<StateAddr, S> {
    performed(
        f,
        workspace(Map::empty()),
        init_calls(places) + init_calls(temp_places),
        Source::Nothing,
    ).states
}

/// The states of a partial aggregator that has consumed the blocks.
pub open spec fn partial_states<S, C, R>(
    f: Functions<S, C, R>,
    a: PartialSingleStateAggregator,
    blocks: Seq<InputBlock<C>>,
) -> Map<StateAddr, S>
    decreases blocks.len(),
{
    if blocks.len() == 0 {
        initial_states(f, a.places@, a.temp_places@)
    } else {
        performed(
            f,
            workspace(partial_states(f, a, blocks.drop_last())),
            accumulate_calls(a.places@, a.arg_names@, blocks.last().rows, a.funcs@.len() as int),
            Source::Input(blocks.last()),
        ).states
    }
}

/// The block that a partial aggregator emits after it has consumed the blocks.
pub open spec fn emitted_states<S, C, R>(
    f: Functions<S, C, R>,
    a: PartialSingleStateAggregator,
    blocks: Seq<InputBlock<C>>,
) -> StateBlock {
    performed(
        f,
        workspace(partial_states(f, a, blocks)),
        serialize_calls(a.places@, a.funcs@.len() as int),
        Source::Nothing,
    ).columns
}

/// The states of a final aggregator that has consumed the blocks of states.
pub open spec fn final_states<S, C, R>(
    f: Functions<S, C, R>,
    a: FinalSingleStateAggregator,
    blocks: Seq<StateBlock>,
) -> Map<StateAddr, S>
    decreases blocks.len(),
{
    if blocks.len() == 0 {
        initial_states(f, a.places@, a.temp_places@)
    } else {
        performed(
            f,
            workspace(final_states(f, a, blocks.drop_last())),
            merge_calls(a.places@, a.temp_places@, a.funcs@.len() as int),
            Source::States(blocks.last()),
        ).states
    }
}

/// The columns of results that a final aggregator emits after it has consumed the blocks of states.
pub open spec fn emitted_results<S, C, R>(
    f: Functions<S, C, R>,
    a: FinalSingleStateAggregator,
    blocks: Seq<StateBlock>,
) -> Seq<Seq<R>> {
    let n = a.funcs@.len() as int;
    performed(
        f,
        workspace(final_states(f, a, blocks)),
        create_calls(n) + result_calls(a.places@, n),
        Source::Nothing,
    ).results
}

/// The calls that a partial aggregator asks for when it generates emit its states.
pub proof fn partial_generates_its_states<S, C, R>(
    f: Functions<S, C, R>,
    before: PartialSingleStateAggregator,
    after: PartialSingleStateAggregator,
    r: Generated,
    blocks: Seq<InputBlock<C>>,
)
    requires
        partial_generated(before, after, r),
        !before.is_finished,
    ensures
        r matches Generated::Block(calls) && performed(
            f,
            workspace(partial_states(f, before, blocks)),
            calls@,
            Source::Nothing,
        ).columns == emitted_states(f, before, blocks),
{
}

/// The calls that a final aggregator asks for when it generates emit its results.
pub proof fn final_generates_its_results<S, C, R>(
    f: Functions<S, C, R>,
    before: FinalSingleStateAggregator,
    after: FinalSingleStateAggregator,
    r: Generated,
    blocks: Seq<StateBlock>,
)
    requires
        final_generated(before, after, r),
        !before.is_finished,
    ensures
        r matches Generated::Block(calls) && performed(
            f,
            workspace(final_states(f, before, blocks)),
            calls@,
            Source::Nothing,
        ).results == emitted_results(f, before, blocks),
{
}

/// The columns of a block that are the arguments of a function.
pub open spec fn arguments<C>(block: InputBlock<C>, names: Seq<String>) -> Seq<C> {
    names.map_values(|name: String| (block.column)(name))
}

/// The state of a function after it has accumulated the blocks, one after the other.
pub open spec fn accumulated<S, C, R>(
    f: Functions<S, C, R>,
    func: usize,
    names: Seq<String>,
    blocks: Seq<InputBlock<C>>,
) -> S
    decreases blocks.len(),
{
    if blocks.len() == 0 {
        (f.init)(func)
    } else {
        (f.accumulate)(
            func,
            accumulated(f, func, names, blocks.drop_last()),
            arguments(blocks.last(), names),
            blocks.last().rows,
        )
    }
}

/// Deserialising gives back the state that was serialised, whatever it overwrites, for the first
/// `n` functions.
pub open spec fn states_survive<S, C, R>(f: Functions<S, C, R>, n: int) -> bool {
    forall|func: usize, overwritten: S, state: S|
        func < n ==> #[trigger] (f.deserialize)(func, overwritten, (f.serialize)(func, state))
            == state
}

/// Merging combines states as accumulating the input of both would, for the first `n` functions.
pub open spec fn merging_accumulates<S, C, R>(
    f: Functions<S, C, R>,
    arg_names: Seq<Vec<String>>,
    n: int,
) -> bool {
    forall|func: usize, xs: Seq<InputBlock<C>>, ys: Seq<InputBlock<C>>|
        func < n ==> (f.merge)(
            func,
            accumulated(f, func, arg_names[func as int]@, xs),
            accumulated(f, func, arg_names[func as int]@, ys),
        ) == #[trigger] accumulated(f, func, arg_names[func as int]@, xs + ys)
}

/// The first `n` functions do not depend on the order of the blocks.
pub open spec fn order_is_free<S, C, R>(
    f: Functions<S, C, R>,
    arg_names: Seq<Vec<String>>,
    n: int,
) -> bool {
    forall|func: usize, xs: Seq<InputBlock<C>>, ys: Seq<InputBlock<C>>|
        func < n && xs.to_multiset() == ys.to_multiset() ==> #[trigger] accumulated(
            f,
            func,
            arg_names[func as int]@,
            xs,
        ) == #[trigger] accumulated(f, func, arg_names[func as int]@, ys)
}

/// The blocks of all parts, part after part.
pub open spec fn concatenated<C>(parts: Seq<Seq<InputBlock<C>>>) -> Seq<InputBlock<C>>
    decreases parts.len(),
{
    if parts.len() == 0 {
        Seq::empty()
    } else {
        concatenated(parts.drop_last()) + parts.last()
    }
}

/// What each of the partial aggregators emits for its part of the input.
pub open spec fn emitted_parts<S, C, R>(
    f: Functions<S, C, R>,
    partials: Seq<PartialSingleStateAggregator>,
    parts: Seq<Seq<InputBlock<C>>>,
) -> Seq<StateBlock> {
    Seq::new(parts.len(), |i: int| emitted_states(f, partials[i], parts[i]))
}

/// The results of functions that accumulate the blocks one after the other: a column of one value
/// for each.
pub open spec fn results_of<S, C, R>(
    f: Functions<S, C, R>,
    arg_names: Seq<Vec<String>>,
    n: nat,
    blocks: Seq<InputBlock<C>>,
) -> Seq<Seq<R>> {
    Seq::new(
        n,
        |i: int|
            seq![
                (f.result)(i as usize, accumulated(f, i as usize, arg_names[i]@, blocks)),
            ],
    )
}

proof fn lemma_performed_add<S, C, R>(
    f: Functions<S, C, R>,
    w: Workspace<S, C, R>,
    a: Seq<AggregateCall>,
    b: Seq<AggregateCall>,
    source: Source<C>,
)
    ensures
        performed(f, w, a + b, source) == performed(f, performed(f, w, a, source), b, source),
    decreases b.len(),
{
    if b.len() == 0 {
        assert(a + b =~= a);
    } else {
        assert((a + b).drop_last() =~= a + b.drop_last());
        assert((a + b).last() == b.last());
        lemma_performed_add(f, w, a, b.drop_last(), source);
    }
}

proof fn lemma_performed_push<S, C, R>(
    f: Functions<S, C, R>,
    w: Workspace<S, C, R>,
    calls: Seq<AggregateCall>,
    call: AggregateCall,
    source: Source<C>,
)
    ensures
        performed(f, w, calls.push(call), source) == called(
            f,
            performed(f, w, calls, source),
            call,
            source,
        ),
{
    assert(calls.push(call).drop_last() =~= calls);
}

/// No two of the states, the temporary ones among them, have the same address, but for those of no
/// byte.
pub open spec fn are_apart<S, C, R>(
    f: Functions<S, C, R>,
    places: Seq<StateAddr>,
    temp_places: Seq<StateAddr>,
) -> bool {
    &&& places.len() == temp_places.len()
    &&& places.len() <= usize::MAX
    &&& forall|i: int, j: int|
        0 <= i < places.len() && 0 <= j < places.len() && (f.size)(i as usize) > 0 && (f.size)(
            j as usize,
        ) > 0 ==> {
            &&& #[trigger] places[i] != #[trigger] temp_places[j]
            &&& i != j ==> places[i] != places[j] && temp_places[i] != temp_places[j]
        }
}

/// Initialising initialises each state, and touches no other.
proof fn lemma_init<S, C, R>(
    f: Functions<S, C, R>,
    w: Workspace<S, C, R>,
    places: Seq<StateAddr>,
    k: int,
)
    requires
        0 <= k <= places.len() <= usize::MAX,
        forall|i: int, j: int|
            0 <= i < j < places.len() && (f.size)(i as usize) > 0 && (f.size)(j as usize) > 0
                ==> #[trigger] places[i] != #[trigger] places[j],
    ensures
        ({
            let after = performed(f, w, init_calls(places).take(k), Source::Nothing).states;
            &&& forall|i: int|
                0 <= i < k && (f.size)(i as usize) > 0 ==> after[#[trigger] places[i]] == (f.init)(
                    i as usize,
                )
            &&& forall|place: StateAddr|
                (forall|j: int|
                    0 <= j < k && (f.size)(j as usize) > 0 ==> #[trigger] places[j] != place)
                    ==> #[trigger] after[place] == w.states[place]
        }),
    decreases k,
{
    let calls = init_calls(places);
    if k > 0 {
        lemma_init(f, w, places, k - 1);
        assert(calls.take(k) =~= calls.take(k - 1).push(calls[k - 1]));
        lemma_performed_push(f, w, calls.take(k - 1), calls[k - 1], Source::Nothing);
        let before = performed(f, w, calls.take(k - 1), Source::Nothing).states;
        let after = performed(f, w, calls.take(k), Source::Nothing).states;
        assert forall|i: int|
            0 <= i < k && (f.size)(i as usize) > 0 implies after[#[trigger] places[i]]
            == (f.init)(i as usize) by {
            if i < k - 1 && (f.size)((k - 1) as usize) > 0 {
                assert(places[i] != places[k - 1]);
            }
        }
        assert forall|place: StateAddr|
            (forall|j: int|
                0 <= j < k && (f.size)(j as usize) > 0 ==> #[trigger] places[j]
                    != place) implies #[trigger] after[place] == w.states[place] by {
            if (f.size)((k - 1) as usize) > 0 {
                assert(places[k - 1] != place);
            }
            assert(before[place] == w.states[place]);
        }
    } else {
        assert(calls.take(0) =~= Seq::empty());
    }
}

proof fn lemma_initial_states<S, C, R>(
    f: Functions<S, C, R>,
    places: Seq<StateAddr>,
    temp_places: Seq<StateAddr>,
    i: int,
)
    requires
        0 <= i < places.len(),
        are_apart(f, places, temp_places),
    ensures
        state_at(f, initial_states(f, places, temp_places), i as usize, places[i]) == (f.init)(
            i as usize,
        ),
{
    let w = workspace::<S, C, R>(Map::empty());
    let a = init_calls(places);
    let b = init_calls(temp_places);
    assert(a.take(places.len() as int) =~= a);
    assert(b.take(temp_places.len() as int) =~= b);
    lemma_performed_add(f, w, a, b, Source::Nothing);
    let v = performed(f, w, a, Source::Nothing);
    assert forall|i: int, j: int|
        0 <= i < j < places.len() && (f.size)(i as usize) > 0 && (f.size)(j as usize)
            > 0 implies #[trigger] places[i] != #[trigger] places[j] by {
        assert(places[i] != temp_places[j]);
    }
    assert forall|i: int, j: int|
        0 <= i < j < places.len() && (f.size)(i as usize) > 0 && (f.size)(j as usize)
            > 0 implies #[trigger] temp_places[i] != #[trigger] temp_places[j] by {
        assert(places[i] != temp_places[j]);
    }
    lemma_init(f, w, places, places.len() as int);
    lemma_init(f, v, temp_places, temp_places.len() as int);
    if (f.size)(i as usize) > 0 {
        assert(v.states[places[i]] == (f.init)(i as usize));
        assert forall|j: int|
            0 <= j < temp_places.len() && (f.size)(j as usize) > 0 implies #[trigger] temp_places[j]
            != places[i] by {
            assert(places[i] != temp_places[j]);
        }
    }
}

/// Looking the arguments up collects the columns.
proof fn lemma_arguments<S, C, R>(
    f: Functions<S, C, R>,
    w: Workspace<S, C, R>,
    func: usize,
    names: Seq<String>,
    block: InputBlock<C>,
    m: int,
)
    requires
        0 <= m <= names.len(),
        w.arguments.len() == 0,
    ensures
        performed(f, w, argument_calls(func, names, m), Source::Input(block)) == (Workspace {
            arguments: arguments(block, names).take(m),
            ..w
        }),
    decreases m,
{
    let source = Source::Input(block);
    if m > 0 {
        lemma_arguments(f, w, func, names, block, m - 1);
        let call = AggregateCall::ArgumentColumn { func, name: names[m - 1] };
        assert(argument_calls(func, names, m) =~= argument_calls(func, names, m - 1).push(call));
        lemma_performed_push(f, w, argument_calls(func, names, m - 1), call, source);
        assert(arguments(block, names).take(m) =~= arguments(block, names).take(m - 1).push(
            (block.column)(names[m - 1]),
        ));
    } else {
        assert(argument_calls(func, names, 0) =~= Seq::empty());
        assert(arguments(block, names).take(0) =~= w.arguments);
    }
}

/// Consuming a block of input accumulates it in the state of each function.
proof fn lemma_accumulate<S, C, R>(
    f: Functions<S, C, R>,
    w: Workspace<S, C, R>,
    places: Seq<StateAddr>,
    arg_names: Seq<Vec<String>>,
    block: InputBlock<C>,
    k: int,
)
    requires
        0 <= k <= places.len() <= usize::MAX,
        k <= arg_names.len(),
        w.arguments.len() == 0,
        forall|i: int, j: int|
            0 <= i < j < places.len() && (f.size)(i as usize) > 0 && (f.size)(j as usize) > 0
                ==> #[trigger] places[i] != #[trigger] places[j],
    ensures
        ({
            let after = performed(
                f,
                w,
                accumulate_calls(places, arg_names, block.rows, k),
                Source::Input(block),
            );
            &&& after.arguments.len() == 0
            &&& forall|i: int|
                0 <= i < places.len() && (f.size)(i as usize) > 0
                    ==> after.states[#[trigger] places[i]] == if i < k {
                    (f.accumulate)(
                        i as usize,
                        w.states[places[i]],
                        arguments(block, arg_names[i]@),
                        block.rows,
                    )
                } else {
                    w.states[places[i]]
                }
        }),
    decreases k,
{
    if k > 0 {
        let source = Source::Input(block);
        let func = (k - 1) as usize;
        let names = arg_names[k - 1]@;
        let before = accumulate_calls(places, arg_names, block.rows, k - 1);
        let lookups = argument_calls(func, names, names.len() as int);
        let call = AggregateCall::Accumulate { func, place: places[k - 1], rows: block.rows };
        lemma_accumulate(f, w, places, arg_names, block, k - 1);
        let v = performed(f, w, before, source);
        lemma_performed_add(f, w, before, lookups.push(call), source);
        lemma_performed_push(f, v, lookups, call, source);
        lemma_arguments(f, v, func, names, block, names.len() as int);
        assert(arguments(block, names).take(names.len() as int) =~= arguments(block, names));
        let after = performed(
            f,
            w,
            accumulate_calls(places, arg_names, block.rows, k),
            Source::Input(block),
        );
        assert forall|i: int|
            0 <= i < places.len() && (f.size)(i as usize) > 0 implies after.states[
            #[trigger] places[i]] == if i < k {
            (f.accumulate)(
                i as usize,
                w.states[places[i]],
                arguments(block, arg_names[i]@),
                block.rows,
            )
        } else {
            w.states[places[i]]
        } by {
            if i < k - 1 && (f.size)(func) > 0 {
                assert(places[i] != places[k - 1]);
            }
            if i > k - 1 && (f.size)(func) > 0 {
                assert(places[k - 1] != places[i]);
            }
        }
    }
}

/// Emitting states serialises the state of each function into the column at its position.
proof fn lemma_serialize<S, C, R>(
    f: Functions<S, C, R>,
    w: Workspace<S, C, R>,
    places: Seq<StateAddr>,
    k: int,
)
    requires
        0 <= k <= places.len() <= usize::MAX,
        w.columns.len() == 0,
    ensures
        ({
            let after = performed(f, w, serialize_calls(places, k), Source::Nothing);
            &&& after.states == w.states
            &&& after.columns.len() == k
            &&& forall|i: int|
                0 <= i < k ==> #[trigger] after.columns[i] == seq![
                    (f.serialize)(i as usize, state_at(f, w.states, i as usize, places[i])),
                ]
        }),
    decreases k,
{
    if k > 0 {
        lemma_serialize(f, w, places, k - 1);
        let call = AggregateCall::Serialize { func: (k - 1) as usize, place: places[k - 1] };
        assert(serialize_calls(places, k) =~= serialize_calls(places, k - 1).push(call));
        lemma_performed_push(f, w, serialize_calls(places, k - 1), call, Source::Nothing);
    } else {
        assert(serialize_calls(places, 0) =~= Seq::empty());
    }
}

/// Consuming a block of states merges each into the state of its function.
proof fn lemma_merge<S, C, R>(
    f: Functions<S, C, R>,
    w: Workspace<S, C, R>,
    places: Seq<StateAddr>,
    temp_places: Seq<StateAddr>,
    block: StateBlock,
    k: int,
)
    requires
        0 <= k <= places.len(),
        are_apart(f, places, temp_places),
    ensures
        ({
            let after = performed(
                f,
                w,
                merge_calls(places, temp_places, k),
                Source::<C>::States(block),
            );
            forall|i: int|
                #![trigger places[i]]
                0 <= i < places.len() && (f.size)(i as usize) > 0 ==> if i < k {
                    after.states[places[i]] == (f.merge)(
                        i as usize,
                        w.states[places[i]],
                        (f.deserialize)(i as usize, w.states[temp_places[i]], block[i][0]),
                    )
                } else {
                    &&& after.states[places[i]] == w.states[places[i]]
                    &&& after.states[temp_places[i]] == w.states[temp_places[i]]
                }
        }),
    decreases k,
{
    if k > 0 {
        let source = Source::<C>::States(block);
        let func = (k - 1) as usize;
        let before = merge_calls(places, temp_places, k - 1);
        let read = AggregateCall::ReadState { column: func, row: 0 };
        let deserialize = AggregateCall::Deserialize { func, place: temp_places[k - 1] };
        let merge = AggregateCall::Merge {
            func,
            place: places[k - 1],
            from: temp_places[k - 1],
        };
        lemma_merge(f, w, places, temp_places, block, k - 1);
        assert(merge_calls(places, temp_places, k) =~= before.push(read).push(deserialize).push(
            merge,
        ));
        lemma_performed_push(f, w, before, read, source);
        lemma_performed_push(f, w, before.push(read), deserialize, source);
        lemma_performed_push(f, w, before.push(read).push(deserialize), merge, source);
        let v = performed(f, w, before, source);
        let after = performed(f, w, merge_calls(places, temp_places, k), source);
        let was_read = called(f, v, read, source);
        let was_deserialized = called(f, was_read, deserialize, source);
        assert(was_read.states == v.states);
        assert(was_read.data == block[k - 1][0]);
        assert(after == called(f, was_deserialized, merge, source));
        if (f.size)(func) > 0 {
            let own = w.states[places[k - 1]];
            let sent = (f.deserialize)(func, w.states[temp_places[k - 1]], block[k - 1][0]);
            assert(v.states[places[k - 1]] == own);
            assert(places[k - 1] != temp_places[k - 1]);
            assert(was_deserialized.states == v.states.insert(temp_places[k - 1], sent));
            assert(after.states == was_deserialized.states.insert(
                places[k - 1],
                (f.merge)(func, own, sent),
            ));
        } else {
            assert(after.states == v.states);
        }
        assert forall|i: int|
            #![trigger places[i]]
            0 <= i < places.len() && (f.size)(i as usize) > 0 implies if i < k {
            after.states[places[i]] == (f.merge)(
                i as usize,
                w.states[places[i]],
                (f.deserialize)(i as usize, w.states[temp_places[i]], block[i][0]),
            )
        } else {
            &&& after.states[places[i]] == w.states[places[i]]
            &&& after.states[temp_places[i]] == w.states[temp_places[i]]
        } by {
            if (f.size)(func) > 0 {
                assert(places[i] != temp_places[k - 1]);
                assert(places[k - 1] != temp_places[i]);
                assert(places[k - 1] != temp_places[k - 1]);
                assert(i != k - 1 ==> places[i] != places[k - 1] && temp_places[i]
                    != temp_places[k - 1]);
            }
        }
    }
}

proof fn lemma_create<S, C, R>(f: Functions<S, C, R>, w: Workspace<S, C, R>, k: int)
    requires
        0 <= k,
        w.results.len() == 0,
    ensures
        ({
            let after = performed(f, w, create_calls(k), Source::Nothing);
            &&& after.states == w.states
            &&& after.results.len() == k
            &&& forall|i: int| 0 <= i < k ==> (#[trigger] after.results[i]).len() == 0
        }),
    decreases k,
{
    if k > 0 {
        lemma_create(f, w, k - 1);
        let call = create_calls(k)[k - 1];
        assert(create_calls(k) =~= create_calls(k - 1).push(call));
        lemma_performed_push(f, w, create_calls(k - 1), call, Source::Nothing);
    } else {
        assert(create_calls(0) =~= Seq::empty());
    }
}

/// Emitting results puts the result of each state into the column of its function.
proof fn lemma_results<S, C, R>(
    f: Functions<S, C, R>,
    w: Workspace<S, C, R>,
    places: Seq<StateAddr>,
    k: int,
)
    requires
        0 <= k <= places.len() <= usize::MAX,
        w.results.len() == places.len(),
        forall|i: int| 0 <= i < places.len() ==> (#[trigger] w.results[i]).len() == 0,
    ensures
        ({
            let after = performed(f, w, result_calls(places, k), Source::Nothing);
            &&& after.states == w.states
            &&& after.results.len() == places.len()
            &&& forall|i: int|
                0 <= i < places.len() ==> #[trigger] after.results[i] == if i < k {
                    seq![(f.result)(i as usize, state_at(f, w.states, i as usize, places[i]))]
                } else {
                    Seq::empty()
                }
        }),
    decreases k,
{
    if k > 0 {
        lemma_results(f, w, places, k - 1);
        let call = AggregateCall::MergeResult { func: (k - 1) as usize, place: places[k - 1] };
        assert(result_calls(places, k) =~= result_calls(places, k - 1).push(call));
        lemma_performed_push(f, w, result_calls(places, k - 1), call, Source::Nothing);
        let v = performed(f, w, result_calls(places, k - 1), Source::Nothing);
        let func = (k - 1) as usize;
        let value = (f.result)(func, state_at(f, w.states, func, places[k - 1]));
        assert(v.results[k - 1].push(value) =~= seq![value]);
    } else {
        assert(result_calls(places, 0) =~= Seq::empty());
        assert forall|i: int| 0 <= i < places.len() implies #[trigger] w.results[i]
            == Seq::<R>::empty() by {
            assert(w.results[i] =~= Seq::<R>::empty());
        }
    }
}

/// The states of the functions lie in the layout, and do not overlap there.
pub open spec fn are_laid_out<S, C, R>(f: Functions<S, C, R>, params: AggregatorParams) -> bool {
    let n = params.aggregate_functions@.len();
    let offsets = params.offsets_aggregate_states@;
    &&& params.layout is Some
    &&& forall|i: int|
        0 <= i < n ==> #[trigger] offsets[i] + (f.size)(i as usize) <= params.layout->0.size
    &&& forall|i: int, j: int|
        0 <= i < n && 0 <= j < n && i != j ==> #[trigger] offsets[i] + (f.size)(i as usize)
            <= #[trigger] offsets[j] || offsets[j] + (f.size)(j as usize) <= offsets[i]
}

/// In an aggregator the states that are laid out apart are apart.
proof fn lemma_apart<S, C, R, const FINAL: bool>(
    f: Functions<S, C, R>,
    params: AggregatorParams,
    a: SingleStateAggregator<FINAL>,
)
    requires
        created(params, a),
        are_laid_out(f, params),
    ensures
        are_apart(f, a.places@, a.temp_places@),
{
    let n = params.aggregate_functions@.len();
    let offsets = params.offsets_aggregate_states@;
    assert(a.places@.len() == a.places.len());
    assert forall|i: int, j: int|
        0 <= i < n && 0 <= j < n && (f.size)(i as usize) > 0 && (f.size)(j as usize) > 0 implies {
        &&& #[trigger] a.places@[i] != #[trigger] a.temp_places@[j]
        &&& i != j ==> a.places@[i] != a.places@[j] && a.temp_places@[i] != a.temp_places@[j]
    } by {
        let sizes = Seq::new(n, |k: int| (f.size)(k as usize));
        assert(offsets[i] + (f.size)(i as usize) <= params.layout->0.size);
        assert(offsets[j] + (f.size)(j as usize) <= params.layout->0.size);
        states_and_temporary_states_are_apart_in_memory(params, a, sizes, i, j);
        states_lie_as_far_apart_as_their_offsets(params, a, i, j);
        if i != j {
            assert(offsets[i] + (f.size)(i as usize) <= offsets[j] || offsets[j] + (f.size)(
                j as usize,
            ) <= offsets[i]);
        }
    }
}

/// The partial aggregators are set up for the same functions, with argument names for each. A
/// function whose states take no byte has nothing in which they could differ.
pub open spec fn are_partials<S, C, R>(
    f: Functions<S, C, R>,
    params: AggregatorParams,
    partials: Seq<PartialSingleStateAggregator>,
) -> bool {
    &&& are_laid_out(f, params)
    &&& params.aggregate_functions_arguments_name@.len() >= params.aggregate_functions@.len()
    &&& forall|i: int|
        #![trigger params.aggregate_functions_arguments_name@[i]]
        0 <= i < params.aggregate_functions@.len() && (f.size)(i as usize) == 0 ==> holds_nothing(
            f,
            i as usize,
            params.aggregate_functions_arguments_name@[i]@,
        )
    &&& forall|i: int| 0 <= i < partials.len() ==> created(params, #[trigger] partials[i])
}

/// The states of a function do not differ, whatever it has accumulated.
pub open spec fn holds_nothing<S, C, R>(
    f: Functions<S, C, R>,
    func: usize,
    names: Seq<String>,
) -> bool {
    forall|blocks: Seq<InputBlock<C>>| #[trigger]
        accumulated(f, func, names, blocks) == (f.init)(func)
}

/// The final aggregator is set up for `n` functions.
pub open spec fn is_final<S, C, R>(
    f: Functions<S, C, R>,
    params: AggregatorParams,
    a: FinalSingleStateAggregator,
    n: nat,
) -> bool {
    &&& are_laid_out(f, params)
    &&& created(params, a)
    &&& params.aggregate_functions@.len() == n
}

/// A partial aggregator has accumulated what it has consumed.
proof fn lemma_partial_states<S, C, R>(
    f: Functions<S, C, R>,
    params: AggregatorParams,
    a: PartialSingleStateAggregator,
    blocks: Seq<InputBlock<C>>,
)
    requires
        are_partials(f, params, seq![a]),
    ensures
        forall|i: int|
            0 <= i < a.funcs@.len() ==> state_at(
                f,
                partial_states(f, a, blocks),
                i as usize,
                #[trigger] a.places@[i],
            ) == accumulated(
                f,
                i as usize,
                params.aggregate_functions_arguments_name@[i]@,
                blocks,
            ),
    decreases blocks.len(),
{
    let names = params.aggregate_functions_arguments_name@;
    assert(created(params, seq![a][0]));
    let n = a.funcs@.len() as int;
    assert(n == a.places.len());
    lemma_apart(f, params, a);
    if blocks.len() == 0 {
        assert forall|i: int| 0 <= i < n implies state_at(
            f,
            partial_states(f, a, blocks),
            i as usize,
            #[trigger] a.places@[i],
        ) == accumulated(f, i as usize, names[i]@, blocks) by {
            lemma_initial_states(f, a.places@, a.temp_places@, i);
        }
    } else {
        lemma_partial_states(f, params, a, blocks.drop_last());
        let w = workspace(partial_states(f, a, blocks.drop_last()));
        assert forall|i: int, j: int|
            0 <= i < j < n && (f.size)(i as usize) > 0 && (f.size)(j as usize)
                > 0 implies #[trigger] a.places@[i] != #[trigger] a.places@[j] by {
            assert(a.places@[i] != a.temp_places@[j]);
        }
        lemma_accumulate(f, w, a.places@, a.arg_names@, blocks.last(), n);
        assert forall|i: int| 0 <= i < n implies state_at(
            f,
            partial_states(f, a, blocks),
            i as usize,
            #[trigger] a.places@[i],
        ) == accumulated(f, i as usize, names[i]@, blocks) by {
            assert(a.arg_names@[i]@ == names[i]@);
            if (f.size)(i as usize) == 0 {
                assert(holds_nothing(f, i as usize, names[i]@));
            }
        }
    }
}

/// A partial aggregator emits what it has accumulated, serialised.
proof fn lemma_emitted_states<S, C, R>(
    f: Functions<S, C, R>,
    params: AggregatorParams,
    a: PartialSingleStateAggregator,
    blocks: Seq<InputBlock<C>>,
)
    requires
        are_partials(f, params, seq![a]),
    ensures
        emitted_states(f, a, blocks).len() == params.aggregate_functions@.len(),
        forall|i: int|
            0 <= i < params.aggregate_functions@.len() ==> #[trigger] emitted_states(
                f,
                a,
                blocks,
            )[i] == seq![
                (f.serialize)(
                    i as usize,
                    accumulated(
                        f,
                        i as usize,
                        params.aggregate_functions_arguments_name@[i]@,
                        blocks,
                    ),
                ),
            ],
{
    assert(created(params, seq![a][0]));
    assert(a.funcs@.len() == a.places.len());
    lemma_partial_states(f, params, a, blocks);
    let w = workspace::<S, C, R>(partial_states(f, a, blocks));
    lemma_serialize(f, w, a.places@, a.funcs@.len() as int);
    assert forall|i: int|
        0 <= i < params.aggregate_functions@.len() implies #[trigger] emitted_states(
        f,
        a,
        blocks,
    )[i] == seq![
        (f.serialize)(
            i as usize,
            accumulated(f, i as usize, params.aggregate_functions_arguments_name@[i]@, blocks),
        ),
    ] by {
        assert(state_at(f, w.states, i as usize, a.places@[i]) == accumulated(
            f,
            i as usize,
            params.aggregate_functions_arguments_name@[i]@,
            blocks,
        ));
    }
}

/// A final aggregator has accumulated what the partial aggregators before it have consumed.
proof fn lemma_final_states<S, C, R>(
    f: Functions<S, C, R>,
    params: AggregatorParams,
    partials: Seq<PartialSingleStateAggregator>,
    parts: Seq<Seq<InputBlock<C>>>,
    final_params: AggregatorParams,
    a: FinalSingleStateAggregator,
)
    requires
        are_partials(f, params, partials),
        parts.len() <= partials.len(),
        is_final(f, final_params, a, params.aggregate_functions@.len()),
        states_survive(f, params.aggregate_functions@.len() as int),
        merging_accumulates(
            f,
            params.aggregate_functions_arguments_name@,
            params.aggregate_functions@.len() as int,
        ),
    ensures
        forall|i: int|
            0 <= i < a.funcs@.len() ==> state_at(
                f,
                final_states(f, a, emitted_parts(f, partials, parts)),
                i as usize,
                #[trigger] a.places@[i],
            ) == accumulated(
                f,
                i as usize,
                params.aggregate_functions_arguments_name@[i]@,
                concatenated(parts),
            ),
    decreases parts.len(),
{
    let names = params.aggregate_functions_arguments_name@;
    let n = a.funcs@.len() as int;
    let emitted = emitted_parts(f, partials, parts);
    assert(n == a.places.len());
    lemma_apart(f, final_params, a);
    if parts.len() == 0 {
        assert forall|i: int| 0 <= i < n implies state_at(
            f,
            final_states(f, a, emitted),
            i as usize,
            #[trigger] a.places@[i],
        ) == accumulated(f, i as usize, names[i]@, concatenated(parts)) by {
            lemma_initial_states(f, a.places@, a.temp_places@, i);
        }
    } else {
        let rest = parts.drop_last();
        let last = partials[parts.len() - 1];
        lemma_final_states(f, params, partials, rest, final_params, a);
        assert(emitted.drop_last() =~= emitted_parts(f, partials, rest));
        assert(emitted.last() == emitted_states(f, last, parts.last()));
        assert(are_partials(f, params, seq![last]));
        lemma_emitted_states(f, params, last, parts.last());
        let w = workspace(final_states(f, a, emitted.drop_last()));
        lemma_merge(f, w, a.places@, a.temp_places@, emitted.last(), n);
        assert forall|i: int| 0 <= i < n implies state_at(
            f,
            final_states(f, a, emitted),
            i as usize,
            #[trigger] a.places@[i],
        ) == accumulated(f, i as usize, names[i]@, concatenated(parts)) by {
            let func = i as usize;
            lemma_merged(
                f,
                names,
                n,
                i,
                w.states[a.temp_places@[i]],
                concatenated(rest),
                parts.last(),
            );
            if (f.size)(func) == 0 {
                assert(holds_nothing(f, func, names[i]@));
            } else {
                assert(emitted.last()[i][0] == (f.serialize)(
                    func,
                    accumulated(f, func, names[i]@, parts.last()),
                ));
                assert(state_at(f, w.states, func, a.places@[i]) == accumulated(
                    f,
                    func,
                    names[i]@,
                    concatenated(rest),
                ));
            }
        }
    }
}

/// Merging a state that was sent is accumulating what its sender has accumulated.
proof fn lemma_merged<S, C, R>(
    f: Functions<S, C, R>,
    arg_names: Seq<Vec<String>>,
    n: int,
    i: int,
    overwritten: S,
    own: Seq<InputBlock<C>>,
    sent: Seq<InputBlock<C>>,
)
    requires
        states_survive(f, n),
        merging_accumulates(f, arg_names, n),
        0 <= i < n <= usize::MAX,
    ensures
        (f.merge)(
            i as usize,
            accumulated(f, i as usize, arg_names[i]@, own),
            (f.deserialize)(
                i as usize,
                overwritten,
                (f.serialize)(i as usize, accumulated(f, i as usize, arg_names[i]@, sent)),
            ),
        ) == accumulated(f, i as usize, arg_names[i]@, own + sent),
{
    let func = i as usize;
    let state = accumulated(f, func, arg_names[func as int]@, sent);
    assert((f.deserialize)(func, overwritten, (f.serialize)(func, state)) == state);
    assert((f.merge)(func, accumulated(f, func, arg_names[func as int]@, own), state)
        == accumulated(f, func, arg_names[func as int]@, own + sent));
}

/// A final aggregator that has consumed what partial aggregators emit for the parts of an input
/// gives the results of the functions on the whole input, if deserialising undoes serialising and
/// merging combines states as accumulating the input of both would.
pub proof fn final_gives_results_of_whole_input<S, C, R>(
    f: Functions<S, C, R>,
    params: AggregatorParams,
    partials: Seq<PartialSingleStateAggregator>,
    parts: Seq<Seq<InputBlock<C>>>,
    final_params: AggregatorParams,
    a: FinalSingleStateAggregator,
)
    requires
        are_partials(f, params, partials),
        parts.len() == partials.len(),
        is_final(f, final_params, a, params.aggregate_functions@.len()),
        states_survive(f, params.aggregate_functions@.len() as int),
        merging_accumulates(
            f,
            params.aggregate_functions_arguments_name@,
            params.aggregate_functions@.len() as int,
        ),
    ensures
        emitted_results(f, a, emitted_parts(f, partials, parts)) == results_of(
            f,
            params.aggregate_functions_arguments_name@,
            params.aggregate_functions@.len(),
            concatenated(parts),
        ),
{
    let n = a.funcs@.len() as int;
    let blocks = emitted_parts(f, partials, parts);
    assert(n == a.places.len());
    lemma_final_states(f, params, partials, parts, final_params, a);
    let w = workspace::<S, C, R>(final_states(f, a, blocks));
    lemma_performed_add(f, w, create_calls(n), result_calls(a.places@, n), Source::Nothing);
    lemma_create(f, w, n);
    let v = performed(f, w, create_calls(n), Source::Nothing);
    lemma_results(f, v, a.places@, n);
    assert(emitted_results(f, a, blocks) =~= results_of(
        f,
        params.aggregate_functions_arguments_name@,
        params.aggregate_functions@.len(),
        concatenated(parts),
    ));
}

/// The results do not depend on how the input is split over partial aggregators: two splits of one
/// sequence of blocks give the same.
pub proof fn results_do_not_depend_on_split<S, C, R>(
    f: Functions<S, C, R>,
    params: AggregatorParams,
    partials: Seq<PartialSingleStateAggregator>,
    parts: Seq<Seq<InputBlock<C>>>,
    other_partials: Seq<PartialSingleStateAggregator>,
    other_parts: Seq<Seq<InputBlock<C>>>,
    final_params: AggregatorParams,
    a: FinalSingleStateAggregator,
)
    requires
        are_partials(f, params, partials),
        are_partials(f, params, other_partials),
        parts.len() == partials.len(),
        other_parts.len() == other_partials.len(),
        concatenated(parts) == concatenated(other_parts),
        is_final(f, final_params, a, params.aggregate_functions@.len()),
        states_survive(f, params.aggregate_functions@.len() as int),
        merging_accumulates(
            f,
            params.aggregate_functions_arguments_name@,
            params.aggregate_functions@.len() as int,
        ),
    ensures
        emitted_results(f, a, emitted_parts(f, partials, parts)) == emitted_results(
            f,
            a,
            emitted_parts(f, other_partials, other_parts),
        ),
{
    final_gives_results_of_whole_input(f, params, partials, parts, final_params, a);
    final_gives_results_of_whole_input(f, params, other_partials, other_parts, final_params, a);
}

/// If the functions do not depend on the order of the blocks, the results do not depend on how the
/// blocks are dealt out to partial aggregators, in whichever order.
pub proof fn results_do_not_depend_on_order<S, C, R>(
    f: Functions<S, C, R>,
    params: AggregatorParams,
    partials: Seq<PartialSingleStateAggregator>,
    parts: Seq<Seq<InputBlock<C>>>,
    other_partials: Seq<PartialSingleStateAggregator>,
    other_parts: Seq<Seq<InputBlock<C>>>,
    final_params: AggregatorParams,
    a: FinalSingleStateAggregator,
)
    requires
        are_partials(f, params, partials),
        are_partials(f, params, other_partials),
        parts.len() == partials.len(),
        other_parts.len() == other_partials.len(),
        concatenated(parts).to_multiset() == concatenated(other_parts).to_multiset(),
        is_final(f, final_params, a, params.aggregate_functions@.len()),
        states_survive(f, params.aggregate_functions@.len() as int),
        merging_accumulates(
            f,
            params.aggregate_functions_arguments_name@,
            params.aggregate_functions@.len() as int,
        ),
        order_is_free(
            f,
            params.aggregate_functions_arguments_name@,
            params.aggregate_functions@.len() as int,
        ),
    ensures
        emitted_results(f, a, emitted_parts(f, partials, parts)) == emitted_results(
            f,
            a,
            emitted_parts(f, other_partials, other_parts),
        ),
{
    let names = params.aggregate_functions_arguments_name@;
    let n = params.aggregate_functions@.len();
    let xs = concatenated(parts);
    let ys = concatenated(other_parts);
    final_gives_results_of_whole_input(f, params, partials, parts, final_params, a);
    final_gives_results_of_whole_input(f, params, other_partials, other_parts, final_params, a);
    assert forall|i: int| 0 <= i < n implies #[trigger] results_of(f, names, n, xs)[i]
        == results_of(f, names, n, ys)[i] by {
        let func = i as usize;
        assert(n == params.aggregate_functions.len());
        assert(accumulated(f, func, names[func as int]@, xs) == accumulated(
            f,
            func,
            names[func as int]@,
            ys,
        ));
    }
    assert(results_of(f, names, n, xs) =~= results_of(f, names, n, ys));
}

/// Splitting the input over partial aggregators gives what a single one gives that consumes all the
/// blocks.
pub proof fn split_gives_what_one_partial_gives<S, C, R>(
    f: Functions<S, C, R>,
    params: AggregatorParams,
    partials: Seq<PartialSingleStateAggregator>,
    parts: Seq<Seq<InputBlock<C>>>,
    single: PartialSingleStateAggregator,
    final_params: AggregatorParams,
    a: FinalSingleStateAggregator,
)
    requires
        are_partials(f, params, partials),
        parts.len() == partials.len(),
        created(params, single),
        is_final(f, final_params, a, params.aggregate_functions@.len()),
        states_survive(f, params.aggregate_functions@.len() as int),
        merging_accumulates(
            f,
            params.aggregate_functions_arguments_name@,
            params.aggregate_functions@.len() as int,
        ),
    ensures
        emitted_results(f, a, emitted_parts(f, partials, parts)) == emitted_results(
            f,
            a,
            seq![emitted_states(f, single, concatenated(parts))],
        ),
{
    let whole = seq![concatenated(parts)];
    reveal_with_fuel(concatenated, 2);
    assert(whole.drop_last() =~= Seq::<Seq<InputBlock<C>>>::empty());
    assert(concatenated(whole) =~= concatenated(parts));
    assert(emitted_parts(f, seq![single], whole) =~= seq![
        emitted_states(f, single, concatenated(parts)),
    ]);
    results_do_not_depend_on_split(
        f,
        params,
        partials,
        parts,
        seq![single],
        whole,
        final_params,
        a,
    );
}

} // verus!
