use databend_query::interpreter_copy::CopyAction;
use databend_query::interpreter_copy::CopyEvent;
use databend_query::interpreter_copy::CopyInterpreter;
use databend_query::interpreter_copy::CopyPlan;
use databend_query::interpreter_copy::CopyStage;
use databend_query::interpreter_copy::CopyState;

fn interpreter(files: &[&str]) -> CopyInterpreter {
    let plan = CopyPlan {
        db_name: "db".to_string(),
        tbl_name: "tbl".to_string(),
        files: files.iter().map(|f| f.to_string()).collect(),
    };
    CopyInterpreter::try_create(plan).unwrap()
}

fn name_of(action: &CopyAction<String>) -> String {
    match action {
        CopyAction::BuildPipeline { file_name } => format!("build {:?}", file_name),
        CopyAction::GetMaxThreads => "get threads".to_string(),
        CopyAction::SetMaxThreads { max_threads } => format!("set threads {}", max_threads),
        CopyAction::CreateExecutor => "executor".to_string(),
        CopyAction::CreateSourceStream => "source".to_string(),
        CopyAction::CreateProgressStream => "progress".to_string(),
        CopyAction::GetTable { db_name, tbl_name } => format!("table {}.{}", db_name, tbl_name),
        CopyAction::AppendData => "append".to_string(),
        CopyAction::CollectOperations => "collect".to_string(),
        CopyAction::CommitInsertion { overwrite } => format!("commit {}", overwrite),
        CopyAction::ReturnEmptyStream => "return".to_string(),
        CopyAction::Fail(error) => format!("fail {}", error),
    }
}

/// Runs until the end, or until the action number `fail_at` fails.
fn run(copy: &CopyInterpreter, fail_at: usize) -> (CopyState, Vec<String>) {
    let (mut state, mut action) = copy.execute::<String>();
    let mut log = vec![name_of(&action)];
    while let CopyState::Copying { .. } = state {
        let event = if log.len() == fail_at {
            CopyEvent::Failed("disk".to_string())
        } else if matches!(action, CopyAction::GetMaxThreads) {
            CopyEvent::MaxThreads(8)
        } else {
            CopyEvent::Done
        };
        let (next, todo) = copy.resume(state, event);
        state = next;
        action = todo;
        log.push(name_of(&action));
    }
    (state, log)
}

#[test]
fn copy_without_files_copies_once() {
    let (state, log) = run(&interpreter(&[]), 0);
    assert_eq!(state, CopyState::Finished);
    assert_eq!(
        log,
        vec![
            "build None",
            "get threads",
            "set threads 8",
            "executor",
            "source",
            "progress",
            "table db.tbl",
            "append",
            "collect",
            "commit false",
            "return",
        ]
    );
}

#[test]
fn copy_goes_through_the_files_in_order() {
    let (state, log) = run(&interpreter(&["x", "y", "z"]), 0);
    assert_eq!(state, CopyState::Finished);
    assert_eq!(log.len(), 31);
    assert_eq!(log[0], "build Some(\"x\")");
    assert_eq!(log[10], "build Some(\"y\")");
    assert_eq!(log[20], "build Some(\"z\")");
    assert_eq!(log.iter().filter(|l| *l == "commit false").count(), 3);
    assert_eq!(log[30], "return");
}

#[test]
fn copy_stops_at_the_first_failure() {
    let (state, log) = run(&interpreter(&["x", "y"]), 15);
    assert_eq!(state, CopyState::Failed);
    assert_eq!(log.len(), 16);
    assert_eq!(log[15], "fail disk");
    assert_eq!(log.iter().filter(|l| *l == "commit false").count(), 1);
}

#[test]
fn copy_of_one_file_ends_with_the_commit() {
    let copy = interpreter(&["x"]);
    assert!(copy
        .copy_one_file_to_table::<String>(CopyStage::CommitInsertion, None)
        .is_none());
    let (stage, action) = copy
        .copy_one_file_to_table::<String>(CopyStage::GetMaxThreads, Some(3))
        .unwrap();
    assert_eq!(stage, CopyStage::SetMaxThreads);
    assert_eq!(name_of(&action), "set threads 3");
}

#[test]
fn copy_interpreter_name() {
    assert_eq!(interpreter(&[]).name(), "CopyInterpreter");
}
