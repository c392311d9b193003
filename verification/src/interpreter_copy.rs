//! The `COPY` interpreter: copies files into a table, one after the other.
//!
//! Reading, writing and committing belong to the engine. What it does next, and with which values,
//! is decided here after each of its answers.

use crate::error::ErrorCode;
use vstd::prelude::*;

verus! {

/// What to copy, and where to.
#[derive(Debug)]
pub struct CopyPlan {
    pub db_name: String,
    pub tbl_name: String,
    pub files: Vec<String>,
}

impl CopyPlan {
    /// The number of copies that the plan takes: one per file, or one if it names no file.
    pub open spec fn copies(self) -> int {
        if self.files@.len() == 0 {
            1
        } else {
            self.files@.len() as int
        }
    }

    /// The file of a copy.
    pub open spec fn file(self, copy: int) -> Option<String> {
        if self.files@.len() == 0 {
            None
        } else {
            Some(self.files@[copy])
        }
    }
}

/// A stage of the copy of one file.
#[derive(Clone, Copy, Debug, PartialEq, Eq, Structural)]
pub enum CopyStage {
    BuildPipeline,
    GetMaxThreads,
    SetMaxThreads,
    CreateExecutor,
    CreateSourceStream,
    CreateProgressStream,
    GetTable,
    AppendData,
    CollectOperations,
    CommitInsertion,
}

/// How far the interpreter is.
#[derive(Clone, Copy, Debug, PartialEq, Eq, Structural)]
pub enum CopyState {
    Copying { copy: usize, stage: CopyStage },
    Finished,
    Failed,
}

/// What the engine has to do next.
#[derive(Debug)]
pub enum CopyAction<E> {
    /// Build the pipeline that selects from the source of the plan: from `file_name` only, where
    /// one is given.
    BuildPipeline { file_name: Option<String> },
    /// Read the setting of the number of threads, and answer [`CopyEvent::MaxThreads`].
    GetMaxThreads,
    SetMaxThreads { max_threads: usize },
    CreateExecutor,
    CreateSourceStream,
    CreateProgressStream,
    GetTable { db_name: String, tbl_name: String },
    /// Append what the progress stream yields to the table.
    AppendData,
    /// Collect the operations that appending yields.
    CollectOperations,
    /// Commit the operations to the table.
    CommitInsertion { overwrite: bool },
    /// Return a stream of no block, with the schema of the plan.
    ReturnEmptyStream,
    /// Return the error.
    Fail(E),
}

/// What the engine reports back.
#[derive(Debug)]
pub enum CopyEvent<E> {
    Done,
    MaxThreads(u64),
    Failed(E),
}

/// The stage after a stage, within a copy.
pub open spec fn next_stage(stage: CopyStage) -> CopyStage {
    match stage {
        CopyStage::BuildPipeline => CopyStage::GetMaxThreads,
        CopyStage::GetMaxThreads => CopyStage::SetMaxThreads,
        CopyStage::SetMaxThreads => CopyStage::CreateExecutor,
        CopyStage::CreateExecutor => CopyStage::CreateSourceStream,
        CopyStage::CreateSourceStream => CopyStage::CreateProgressStream,
        CopyStage::CreateProgressStream => CopyStage::GetTable,
        CopyStage::GetTable => CopyStage::AppendData,
        CopyStage::AppendData => CopyStage::CollectOperations,
        CopyStage::CollectOperations => CopyStage::CommitInsertion,
        CopyStage::CommitInsertion => CopyStage::BuildPipeline,
    }
}

/// Whether the engine can report `event` in `state`: the number of threads if, and only if, it was
/// asked for.
pub open spec fn can_report<E>(state: CopyState, event: CopyEvent<E>) -> bool {
    match state {
        CopyState::Copying { copy, stage } => match event {
            CopyEvent::Done => !(stage is GetMaxThreads),
            CopyEvent::MaxThreads(_) => stage is GetMaxThreads,
            CopyEvent::Failed(_) => true,
        },
        _ => false,
    }
}

/// The state after an event. A commit ends a copy, and the last copy ends the run; a failure ends
/// it at once.
pub open spec fn next_state<E>(plan: CopyPlan, state: CopyState, event: CopyEvent<E>) -> CopyState {
    match state {
        CopyState::Copying { copy, stage } => if event is Failed {
            CopyState::Failed
        } else if stage is CommitInsertion {
            if copy + 1 < plan.copies() {
                CopyState::Copying { copy: (copy + 1) as usize, stage: CopyStage::BuildPipeline }
            } else {
                CopyState::Finished
            }
        } else {
            CopyState::Copying { copy, stage: next_stage(stage) }
        },
        _ => state,
    }
}

/// What the engine does in a state that `event` has led to. Strings are compared by what they hold.
pub open spec fn is_action_of<E>(
    plan: CopyPlan,
    state: CopyState,
    event: CopyEvent<E>,
    action: CopyAction<E>,
) -> bool {
    match state {
        CopyState::Copying { copy, stage } => match stage {
            CopyStage::BuildPipeline => action == CopyAction::<E>::BuildPipeline {
                file_name: plan.file(copy as int),
            },
            CopyStage::GetMaxThreads => action is GetMaxThreads,
            CopyStage::SetMaxThreads => {
                &&& event is MaxThreads
                &&& action == CopyAction::<E>::SetMaxThreads {
                    max_threads: event->MaxThreads_0 as usize,
                }
            },
            CopyStage::CreateExecutor => action is CreateExecutor,
            CopyStage::CreateSourceStream => action is CreateSourceStream,
            CopyStage::CreateProgressStream => action is CreateProgressStream,
            CopyStage::GetTable => action == CopyAction::<E>::GetTable {
                db_name: plan.db_name,
                tbl_name: plan.tbl_name,
            },
            CopyStage::AppendData => action is AppendData,
            CopyStage::CollectOperations => action is CollectOperations,
            CopyStage::CommitInsertion => action == CopyAction::<E>::CommitInsertion {
                overwrite: false,
            },
        },
        CopyState::Finished => action is ReturnEmptyStream,
        CopyState::Failed => event is Failed && action == CopyAction::Fail(event->Failed_0),
    }
}

/// The interpreter of a `COPY` plan.
#[derive(Debug)]
pub struct CopyInterpreter {
    pub plan: CopyPlan,
}

impl CopyInterpreter {
    /// An interpreter for the plan. It cannot fail.
    pub fn try_create(plan: CopyPlan) -> (r: Result<CopyInterpreter, ErrorCode>)
        ensures
            r == Ok::<CopyInterpreter, ErrorCode>(CopyInterpreter { plan }),
    {
        Ok(CopyInterpreter { plan })
    }

    pub fn name(&self) -> (r: &'static str)
        ensures
            r@ == "CopyInterpreter"@,
    {
        "CopyInterpreter"
    }

    /// A copy that the state is in is one of the plan's.
    pub open spec fn wf(self, state: CopyState) -> bool {
        state matches CopyState::Copying { copy, stage } ==> copy < self.plan.copies()
    }

    /// The file of a copy.
    fn file_name(&self, copy: usize) -> (r: Option<String>)
        requires
            copy < self.plan.copies(),
        ensures
            r == self.plan.file(copy as int),
    {
        if self.plan.files.len() == 0 {
            None
        } else {
            Some(self.plan.files[copy].clone())
        }
    }

    /// Begins: with the first stage of the first copy.
    pub fn execute<E>(&self) -> (r: (CopyState, CopyAction<E>))
        ensures
            r.0 == (CopyState::Copying { copy: 0, stage: CopyStage::BuildPipeline }),
            r.1 == (CopyAction::<E>::BuildPipeline { file_name: self.plan.file(0) }),
            r.1 == (CopyAction::<E>::BuildPipeline {
                file_name: if self.plan.files@.len() == 0 {
                    None
                } else {
                    Some(self.plan.files@[0])
                },
            }),
            self.wf(r.0),
    {
        let action = CopyAction::BuildPipeline { file_name: self.file_name(0) };
        (CopyState::Copying { copy: 0, stage: CopyStage::BuildPipeline }, action)
    }

    /// The stages of the copy of one file: what comes after `stage` when it has succeeded. Nothing
    /// comes after the commit.
    pub fn copy_one_file_to_table<E>(&self, stage: CopyStage, max_threads: Option<u64>) -> (r:
        Option<(CopyStage, CopyAction<E>)>)
        requires
            max_threads is Some <==> stage is GetMaxThreads,
        ensures
            r is None <==> stage is CommitInsertion,
            r matches Some((next, action)) ==> {
                &&& next == next_stage(stage)
                &&& is_action_of(
                    self.plan,
                    CopyState::Copying { copy: 0, stage: next },
                    match max_threads {
                        Some(n) => CopyEvent::<E>::MaxThreads(n),
                        None => CopyEvent::<E>::Done,
                    },
                    action,
                )
            },
    {
        match stage {
            CopyStage::BuildPipeline => Some((CopyStage::GetMaxThreads, CopyAction::GetMaxThreads)),
            CopyStage::GetMaxThreads => match max_threads {
                Some(n) => Some(
                    (
                        CopyStage::SetMaxThreads,
                        CopyAction::SetMaxThreads { max_threads: n as usize },
                    ),
                ),
                None => None,
            },
            CopyStage::SetMaxThreads => Some(
                (CopyStage::CreateExecutor, CopyAction::CreateExecutor),
            ),
            CopyStage::CreateExecutor => Some(
                (CopyStage::CreateSourceStream, CopyAction::CreateSourceStream),
            ),
            CopyStage::CreateSourceStream => Some(
                (CopyStage::CreateProgressStream, CopyAction::CreateProgressStream),
            ),
            CopyStage::CreateProgressStream => Some(
                (
                    CopyStage::GetTable,
                    CopyAction::GetTable {
                        db_name: self.plan.db_name.clone(),
                        tbl_name: self.plan.tbl_name.clone(),
                    },
                ),
            ),
            CopyStage::GetTable => Some((CopyStage::AppendData, CopyAction::AppendData)),
            CopyStage::AppendData => Some(
                (CopyStage::CollectOperations, CopyAction::CollectOperations),
            ),
            CopyStage::CollectOperations => Some(
                (CopyStage::CommitInsertion, CopyAction::CommitInsertion { overwrite: false }),
            ),
            CopyStage::CommitInsertion => None,
        }
    }

    /// Goes on after the engine has answered.
    pub fn resume<E>(&self, state: CopyState, event: CopyEvent<E>) -> (r: (
        CopyState,
        CopyAction<E>,
    ))
        requires
            self.wf(state),
            can_report(state, event),
        ensures
            self.wf(r.0),
            r.0 == next_state(self.plan, state, event),
            is_action_of(self.plan, r.0, event, r.1),
            r.1 matches CopyAction::CommitInsertion { overwrite } ==> !overwrite,
            r.1 matches CopyAction::GetTable { db_name, tbl_name } ==> db_name@
                == self.plan.db_name@ && tbl_name@ == self.plan.tbl_name@,
    {
        let max_threads: Option<u64> = match event {
            CopyEvent::Failed(error) => {
                return (CopyState::Failed, CopyAction::Fail(error));
            },
            CopyEvent::MaxThreads(n) => Some(n),
            CopyEvent::Done => None,
        };
        let (copy, stage): (usize, CopyStage) = match state {
            CopyState::Copying { copy, stage } => (copy, stage),
            _ => {
                return (state, CopyAction::ReturnEmptyStream);
            },
        };
        match self.copy_one_file_to_table(stage, max_threads) {
            Some((next, action)) => (CopyState::Copying { copy, stage: next }, action),
            None => {
                if self.plan.files.len() > 0 && copy < self.plan.files.len() - 1 {
                    let next: usize = copy + 1;
                    let action = CopyAction::BuildPipeline { file_name: self.file_name(next) };
                    (CopyState::Copying { copy: next, stage: CopyStage::BuildPipeline }, action)
                } else {
                    (CopyState::Finished, CopyAction::ReturnEmptyStream)
                }
            },
        }
    }
}

/// The number of stages of a copy.
pub open spec fn stages() -> int {
    10
}

/// The stages in their order.
pub open spec fn stage_at(i: int) -> CopyStage
    decreases i,
{
    if i <= 0 {
        CopyStage::BuildPipeline
    } else {
        next_stage(stage_at(i - 1))
    }
}

/// The state of a run in which `k` answers were successes.
pub open spec fn state_after(plan: CopyPlan, k: int) -> CopyState {
    if k < stages() * plan.copies() {
        CopyState::Copying { copy: (k / stages()) as usize, stage: stage_at(k % stages()) }
    } else {
        CopyState::Finished
    }
}

/// A run without failures goes through all stages of each file, file after file, and ends after the
/// commit of the last one.
pub proof fn run_goes_through_all_files<E>(plan: CopyPlan, k: int, event: CopyEvent<E>)
    requires
        0 <= k < stages() * plan.copies(),
        can_report(state_after(plan, k), event),
        !(event is Failed),
    ensures
        state_after(plan, 0) == (CopyState::Copying { copy: 0, stage: CopyStage::BuildPipeline }),
        next_state(plan, state_after(plan, k), event) == state_after(plan, k + 1),
        state_after(plan, k + 1) is Finished <==> k + 1 == stages() * plan.copies(),
        state_after(plan, k) matches CopyState::Copying { copy, stage } && (stage is CommitInsertion
            <==> k % stages() == stages() - 1),
{
    reveal_with_fuel(stage_at, 11);
    assert(plan.files@.len() == plan.files.len());
    let i = k % stages();
    assert(0 <= i < 10);
    assert(stage_at(10) == CopyStage::BuildPipeline);
}

/// The state of a run after its first `k` answers.
pub open spec fn run<E>(plan: CopyPlan, events: Seq<CopyEvent<E>>, k: int) -> CopyState
    decreases k,
{
    if k <= 0 {
        CopyState::Copying { copy: 0, stage: CopyStage::BuildPipeline }
    } else {
        next_state(plan, run(plan, events, k - 1), events[k - 1])
    }
}

/// The number of commits that succeeded in the first `k` answers of a run.
pub open spec fn commits<E>(plan: CopyPlan, events: Seq<CopyEvent<E>>, k: int) -> int
    decreases k,
{
    if k <= 0 {
        0
    } else {
        commits(plan, events, k - 1) + (if !(events[k - 1] is Failed) && (run(plan, events, k - 1)
            matches CopyState::Copying { copy, stage } && stage is CommitInsertion) {
            1int
        } else {
            0
        })
    }
}

/// As long as the engine succeeds, the files are committed one after the other: after `k` answers
/// the run is at the stage that `k` gives, and every file before the one it is at is committed, and
/// no other. The run finishes when all are.
pub proof fn files_are_committed_in_order<E>(plan: CopyPlan, events: Seq<CopyEvent<E>>, k: int)
    requires
        0 <= k <= events.len(),
        k <= stages() * plan.copies(),
        forall|j: int|
            0 <= j < k ==> can_report(run(plan, events, j), #[trigger] events[j]) && !(events[j]
                is Failed),
    ensures
        run(plan, events, k) == state_after(plan, k),
        commits(plan, events, k) == k / stages(),
        run(plan, events, k) matches CopyState::Copying { copy, stage } ==> commits(plan, events, k)
            == copy,
        run(plan, events, k) is Finished ==> commits(plan, events, k) == plan.copies(),
    decreases k,
{
    assert(plan.files@.len() == plan.files.len());
    if k > 0 {
        files_are_committed_in_order(plan, events, k - 1);
        assert(can_report(run(plan, events, k - 1), events[k - 1]));
        run_goes_through_all_files(plan, k - 1, events[k - 1]);
    }
}

/// After a failure nothing more is done: there is no event that the engine could report.
pub proof fn failure_ends_the_run<E>(plan: CopyPlan, state: CopyState, event: CopyEvent<E>)
    requires
        can_report(state, event),
        event is Failed,
    ensures
        next_state(plan, state, event) is Failed,
        forall|later: CopyEvent<E>| !can_report(next_state(plan, state, event), later),
{
}

/// What the interpreter asks for after any answer: a commit never overwrites what the table holds,
/// the table is the plan's, a pipeline reads the file at the position of its copy, the number of
/// threads is the one reported, and an error is handed on as it was reported. A copy begins when
/// the one before it is committed.
pub proof fn actions_name_what_the_plan_names<E>(
    plan: CopyPlan,
    state: CopyState,
    event: CopyEvent<E>,
    next: CopyState,
    action: CopyAction<E>,
)
    requires
        can_report(state, event),
        state matches CopyState::Copying { copy, stage } ==> copy < plan.files@.len() || copy == 0,
        next == next_state(plan, state, event),
        is_action_of(plan, next, event, action),
    ensures
        action matches CopyAction::CommitInsertion { overwrite } ==> !overwrite,
        action matches CopyAction::GetTable { db_name, tbl_name } ==> db_name == plan.db_name
            && tbl_name == plan.tbl_name,
        action matches CopyAction::SetMaxThreads { max_threads } ==> event
            matches CopyEvent::MaxThreads(n) && max_threads == n as usize,
        action matches CopyAction::BuildPipeline { file_name } ==> {
            &&& state matches CopyState::Copying { copy, stage } && {
                &&& stage is CommitInsertion
                &&& copy + 1 < plan.files@.len()
                &&& file_name == Some(plan.files@[copy + 1])
                &&& next matches CopyState::Copying { copy: now, stage: _ } && now == copy + 1
            }
        },
        action matches CopyAction::Fail(error) ==> event == CopyEvent::Failed(error),
        event is Failed ==> action is Fail && next is Failed,
        action is ReturnEmptyStream ==> next is Finished && (state matches CopyState::Copying {
            copy,
            stage,
        } && stage is CommitInsertion && copy + 1 >= plan.files@.len()),
{
    assert(plan.files@.len() == plan.files.len());
}

/// A run without failures asks for these actions, in this order: for each file of the plan, or once
/// for no file if the plan names none, the pipeline of the file, the number of threads, which is
/// then set, the executor, the source, the progress, the table of the plan, the append, the
/// operations and a commit that adds to the table. After the last commit it returns.
pub proof fn a_run_copies_file_after_file<E>(
    plan: CopyPlan,
    states: Seq<CopyState>,
    actions: Seq<CopyAction<E>>,
    events: Seq<CopyEvent<E>>,
    k: int,
)
    requires
        states.len() == events.len() + 1,
        actions.len() == events.len() + 1,
        states[0] == (CopyState::Copying { copy: 0, stage: CopyStage::BuildPipeline }),
        actions[0] == (CopyAction::<E>::BuildPipeline { file_name: plan.file(0) }),
        forall|j: int|
            0 <= j < events.len() ==> {
                &&& !(#[trigger] events[j] is Failed)
                &&& can_report(states[j], events[j])
                &&& states[j + 1] == next_state(plan, states[j], events[j])
                &&& is_action_of(plan, states[j + 1], events[j], actions[j + 1])
            },
        0 <= k <= events.len(),
    ensures
        ({
            let copies = if plan.files@.len() == 0 {
                1
            } else {
                plan.files@.len() as int
            };
            let file_name = if plan.files@.len() == 0 {
                None
            } else {
                Some(plan.files@[k / 10])
            };
            &&& k <= 10 * copies
            &&& if k == 10 * copies {
                actions[k] is ReturnEmptyStream && states[k] is Finished
            } else if k % 10 == 0 {
                actions[k] == CopyAction::<E>::BuildPipeline { file_name }
            } else if k % 10 == 1 {
                actions[k] is GetMaxThreads
            } else if k % 10 == 2 {
                &&& events[k - 1] is MaxThreads
                &&& actions[k] == CopyAction::<E>::SetMaxThreads {
                    max_threads: events[k - 1]->MaxThreads_0 as usize,
                }
            } else if k % 10 == 3 {
                actions[k] is CreateExecutor
            } else if k % 10 == 4 {
                actions[k] is CreateSourceStream
            } else if k % 10 == 5 {
                actions[k] is CreateProgressStream
            } else if k % 10 == 6 {
                actions[k] == CopyAction::<E>::GetTable {
                    db_name: plan.db_name,
                    tbl_name: plan.tbl_name,
                }
            } else if k % 10 == 7 {
                actions[k] is AppendData
            } else if k % 10 == 8 {
                actions[k] is CollectOperations
            } else {
                actions[k] == CopyAction::<E>::CommitInsertion { overwrite: false }
            }
        }),
{
    assert(plan.files@.len() == plan.files.len());
    lemma_run_states(plan, states, actions, events, k);
    reveal_with_fuel(stage_at, 11);
    if k > 0 {
        assert(is_action_of(plan, states[k], events[k - 1], actions[k])) by {
            assert(!(events[k - 1] is Failed));
        }
    }
}

proof fn lemma_run_states<E>(
    plan: CopyPlan,
    states: Seq<CopyState>,
    actions: Seq<CopyAction<E>>,
    events: Seq<CopyEvent<E>>,
    k: int,
)
    requires
        states.len() == events.len() + 1,
        actions.len() == events.len() + 1,
        states[0] == (CopyState::Copying { copy: 0, stage: CopyStage::BuildPipeline }),
        forall|j: int|
            0 <= j < events.len() ==> {
                &&& !(#[trigger] events[j] is Failed)
                &&& can_report(states[j], events[j])
                &&& states[j + 1] == next_state(plan, states[j], events[j])
                &&& is_action_of(plan, states[j + 1], events[j], actions[j + 1])
            },
        0 <= k <= events.len(),
    ensures
        k <= stages() * plan.copies(),
        states[k] == state_after(plan, k),
    decreases k,
{
    assert(plan.files@.len() == plan.files.len());
    if k > 0 {
        lemma_run_states(plan, states, actions, events, k - 1);
        assert(!(events[k - 1] is Failed));
        if k - 1 < stages() * plan.copies() {
            run_goes_through_all_files(plan, k - 1, events[k - 1]);
        }
    }
}

} // verus!
