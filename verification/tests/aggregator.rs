use std::collections::HashMap;

use bytes::BufMut;
use databend_query::aggregator::AggregateCall;
use databend_query::aggregator::AggregateFunction;
use databend_query::aggregator::AggregatorParams;
use databend_query::aggregator::CallRun;
use databend_query::aggregator::FinalSingleStateAggregator;
use databend_query::aggregator::Generated;
use databend_query::aggregator::PartialSingleStateAggregator;
use databend_query::aggregator::StateColumns;
use databend_query::aggregator::StateLayout;
use databend_query::arena::StateAddr;
use databend_query::error::ErrorCode;

/// Two functions, of which the second one needs its states dropped.
fn params() -> AggregatorParams {
    AggregatorParams {
        aggregate_functions: vec![
            AggregateFunction {
                need_manual_drop_state: false,
            },
            AggregateFunction {
                need_manual_drop_state: true,
            },
        ],
        aggregate_functions_arguments_name: vec![
            vec!["a".to_string()],
            vec!["b".to_string(), "c".to_string()],
        ],
        layout: Some(StateLayout { size: 32, align: 16 }),
        offsets_aggregate_states: vec![0, 16],
    }
}

fn emitted(generated: Generated) -> Vec<AggregateCall> {
    match generated {
        Generated::Block(calls) => calls,
        Generated::End(_) => panic!("no block"),
    }
}

fn ended(generated: Generated) -> Vec<AggregateCall> {
    match generated {
        Generated::Block(_) => panic!("a block"),
        Generated::End(calls) => calls,
    }
}

#[test]
fn states_lie_at_their_offsets() {
    let a = PartialSingleStateAggregator::try_create(&params()).unwrap();
    assert_eq!(a.places.len(), 2);
    assert_eq!(a.places[0].addr % 16, 0);
    assert_eq!(a.places[1], a.places[0].next(16));
    assert_eq!(a.temp_places[0].addr % 16, 0);
    assert_eq!(a.temp_places[1], a.temp_places[0].next(16));
    let apart = a.places[0].addr.abs_diff(a.temp_places[0].addr);
    assert!(apart >= 32);
    assert_eq!(a.arg_names[1], vec!["b".to_string(), "c".to_string()]);
}

#[test]
fn a_layout_is_needed() {
    let mut without = params();
    without.layout = None;
    match FinalSingleStateAggregator::try_create(&without) {
        Err(ErrorCode::LayoutError(message)) => assert_eq!(message, "layout shouldn't be None"),
        Ok(_) => panic!("created without a layout"),
    }
}

#[test]
fn states_are_initialised_in_order() {
    let a = FinalSingleStateAggregator::try_create(&params()).unwrap();
    assert_eq!(
        a.init_states(),
        vec![
            AggregateCall::InitState { func: 0, place: a.places[0] },
            AggregateCall::InitState { func: 1, place: a.places[1] },
            AggregateCall::InitState { func: 0, place: a.temp_places[0] },
            AggregateCall::InitState { func: 1, place: a.temp_places[1] },
        ]
    );
}

#[test]
fn final_consume_merges_each_state() {
    let a = FinalSingleStateAggregator::try_create(&params()).unwrap();
    let calls = a.consume();
    assert_eq!(calls.len(), 6);
    assert_eq!(calls[3], AggregateCall::ReadState { column: 1, row: 0 });
    assert_eq!(calls[4], AggregateCall::Deserialize { func: 1, place: a.temp_places[1] });
    assert_eq!(
        calls[5],
        AggregateCall::Merge {
            func: 1,
            place: a.places[1],
            from: a.temp_places[1]
        }
    );
}

#[test]
fn final_generate_emits_once() {
    let mut a = FinalSingleStateAggregator::try_create(&params()).unwrap();
    let calls = emitted(a.generate());
    assert_eq!(
        calls,
        vec![
            AggregateCall::CreateColumn { func: 0, capacity: 1024 },
            AggregateCall::CreateColumn { func: 1, capacity: 1024 },
            AggregateCall::MergeResult { func: 0, place: a.places[0] },
            AggregateCall::MergeResult { func: 1, place: a.places[1] },
        ]
    );
    assert!(ended(a.generate()).is_empty());
    assert!(!a.states_dropped);
}

#[test]
fn partial_consume_accumulates_with_its_arguments() {
    let a = PartialSingleStateAggregator::try_create(&params()).unwrap();
    assert_eq!(
        a.consume(100),
        vec![
            AggregateCall::ArgumentColumn { func: 0, name: "a".to_string() },
            AggregateCall::Accumulate { func: 0, place: a.places[0], rows: 100 },
            AggregateCall::ArgumentColumn { func: 1, name: "b".to_string() },
            AggregateCall::ArgumentColumn { func: 1, name: "c".to_string() },
            AggregateCall::Accumulate { func: 1, place: a.places[1], rows: 100 },
        ]
    );
}

#[test]
fn partial_generate_emits_once_then_drops_once() {
    let mut a = PartialSingleStateAggregator::try_create(&params()).unwrap();
    assert_eq!(
        emitted(a.generate()),
        vec![
            AggregateCall::Serialize { func: 0, place: a.places[0] },
            AggregateCall::Serialize { func: 1, place: a.places[1] },
        ]
    );
    assert!(!a.states_dropped);
    assert_eq!(
        ended(a.generate()),
        vec![
            AggregateCall::DropState { func: 1, place: a.places[1] },
            AggregateCall::DropState { func: 1, place: a.temp_places[1] },
        ]
    );
    assert!(a.states_dropped);
    assert!(ended(a.generate()).is_empty());
    assert!(a.drop_states().is_empty());
}

#[test]
fn states_are_dropped_without_generate() {
    let mut a = FinalSingleStateAggregator::try_create(&params()).unwrap();
    assert_eq!(a.drop_states().len(), 2);
    assert!(a.drop_states().is_empty());
}

#[test]
fn aggregator_names() {
    assert_eq!(FinalSingleStateAggregator::name(), "FinalSingleStateAggregator");
    assert_eq!(PartialSingleStateAggregator::name(), "PartialSingleStateAggregator");
}

#[test]
fn a_failed_call_ends_the_run() {
    let place = StateAddr { addr: 8 };
    let calls = vec![
        AggregateCall::Serialize { func: 0, place },
        AggregateCall::Serialize { func: 1, place },
        AggregateCall::Serialize { func: 2, place },
    ];
    let mut run = CallRun::new(calls);
    let ok: Result<(), u8> = Ok(());
    assert_eq!(run.current(), Some(&AggregateCall::Serialize { func: 0, place }));
    assert_eq!(run.report(ok), Ok(()));
    assert_eq!(run.current(), Some(&AggregateCall::Serialize { func: 1, place }));
    assert_eq!(run.report(Err(9)), Err(9));
    assert_eq!(run.current(), None);
}

#[test]
fn each_state_gets_a_column_of_its_own() {
    let mut columns = StateColumns::new();
    columns.bytes.put_slice(b"first");
    columns.finish_state();
    columns.finish_state();
    columns.bytes.put_slice(b"third");
    columns.finish_state();
    assert_eq!(
        columns.columns,
        vec![vec![b"first".to_vec()], vec![vec![]], vec![b"third".to_vec()]]
    );
    assert!(columns.bytes.is_empty());
}

/// Two functions on the states that the calls name: a sum and a maximum. A block is the columns by
/// name, a block of states is the serialised states.
#[derive(Default)]
struct Engine {
    states: HashMap<(usize, usize), u64>,
    data: Vec<u8>,
    arguments: Vec<Vec<u64>>,
    results: Vec<Vec<u64>>,
}

impl Engine {
    fn combine(func: usize, a: u64, b: u64) -> u64 {
        if func == 0 {
            a + b
        } else {
            a.max(b)
        }
    }

    fn perform(
        &mut self,
        calls: Vec<AggregateCall>,
        input: &HashMap<String, Vec<u64>>,
        states: &[Vec<Vec<u8>>],
    ) -> Vec<Vec<Vec<u8>>> {
        let mut columns = StateColumns::new();
        self.results = vec![];
        for call in calls {
            match call {
                AggregateCall::InitState { func, place } => {
                    self.states.insert((func, place.addr), 0);
                }
                AggregateCall::ReadState { column, row } => {
                    self.data = states[column][row].clone();
                }
                AggregateCall::Deserialize { func, place } => {
                    let mut bytes = [0; 8];
                    bytes.copy_from_slice(&self.data);
                    self.states.insert((func, place.addr), u64::from_be_bytes(bytes));
                }
                AggregateCall::Merge { func, place, from } => {
                    let other = self.states[&(func, from.addr)];
                    let own = self.states[&(func, place.addr)];
                    self.states.insert((func, place.addr), Engine::combine(func, own, other));
                }
                AggregateCall::ArgumentColumn { func: _, name } => {
                    self.arguments.push(input[&name].clone());
                }
                AggregateCall::Accumulate { func, place, rows } => {
                    let mut own = self.states[&(func, place.addr)];
                    for column in std::mem::take(&mut self.arguments) {
                        assert_eq!(column.len(), rows);
                        for value in column {
                            own = Engine::combine(func, own, value);
                        }
                    }
                    self.states.insert((func, place.addr), own);
                }
                AggregateCall::CreateColumn { func: _, capacity: _ } => self.results.push(vec![]),
                AggregateCall::MergeResult { func, place } => {
                    let value = self.states[&(func, place.addr)];
                    self.results[func].push(value);
                }
                AggregateCall::Serialize { func, place } => {
                    columns.bytes.put_u64(self.states[&(func, place.addr)]);
                    columns.finish_state();
                }
                AggregateCall::DropState { func, place } => {
                    self.states.remove(&(func, place.addr));
                }
            }
        }
        columns.columns
    }
}

fn block(a: &[u64], b: &[u64], c: &[u64]) -> HashMap<String, Vec<u64>> {
    let mut columns = HashMap::new();
    columns.insert("a".to_string(), a.to_vec());
    columns.insert("b".to_string(), b.to_vec());
    columns.insert("c".to_string(), c.to_vec());
    columns
}

/// The results for an input that is split over partial aggregators.
fn results(params: &AggregatorParams, parts: &[&[HashMap<String, Vec<u64>>]]) -> Vec<Vec<u64>> {
    let nothing = HashMap::new();
    let mut last = FinalSingleStateAggregator::try_create(params).unwrap();
    let mut merging = Engine::default();
    merging.perform(last.init_states(), &nothing, &[]);
    for part in parts {
        let mut partial = PartialSingleStateAggregator::try_create(params).unwrap();
        let mut engine = Engine::default();
        engine.perform(partial.init_states(), &nothing, &[]);
        for block in part.iter() {
            engine.perform(partial.consume(block["a"].len()), block, &[]);
        }
        let states = engine.perform(emitted(partial.generate()), &nothing, &[]);
        merging.perform(last.consume(), &nothing, &states);
    }
    merging.perform(emitted(last.generate()), &nothing, &[]);
    merging.results
}

#[test]
fn results_do_not_depend_on_the_split() {
    let blocks = vec![
        block(&[1, 2], &[5, 7], &[6, 0]),
        block(&[10], &[3], &[90]),
        block(&[100, 200, 300], &[1, 2, 3], &[4, 5, 6]),
    ];
    let whole = results(&params(), &[&blocks]);
    assert_eq!(whole, vec![vec![613], vec![90]]);
    assert_eq!(results(&params(), &[&blocks[..1], &blocks[1..]]), whole);
    assert_eq!(results(&params(), &[&blocks[..1], &[], &blocks[1..2], &blocks[2..]]), whole);
    assert_eq!(results(&params(), &[&blocks[2..], &blocks[..2]]), whole);
}

#[test]
fn states_of_no_byte_do_not_depend_on_the_split() {
    // Without arguments the states of both functions stay as they are.
    let mut empty = params();
    empty.aggregate_functions_arguments_name = vec![vec![], vec![]];
    empty.layout = Some(StateLayout { size: 0, align: 1 });
    empty.offsets_aggregate_states = vec![0, 0];
    let blocks = vec![block(&[1], &[2], &[3]), block(&[4], &[5], &[6])];
    let whole = results(&empty, &[&blocks]);
    assert_eq!(whole, vec![vec![0], vec![0]]);
    assert_eq!(results(&empty, &[&blocks[..1], &blocks[1..]]), whole);
}

#[test]
fn a_state_at_the_end_of_the_layout_has_its_own_place() {
    let mut at_end = params();
    at_end.offsets_aggregate_states = vec![0, 32];
    let a = FinalSingleStateAggregator::try_create(&at_end).unwrap();
    assert_eq!(a.places[1], a.places[0].next(32));
    assert_ne!(a.places[1], a.temp_places[1]);
}
