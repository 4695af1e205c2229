use lh_mount::dynamic_exec::Outcome;
use lh_mount::error::Error;
use lh_mount::metadata::{
    get_metadata_checker, DynamicMetadata, Metadata, MetadataHandler, MockHandler, Operation,
    Reply, Request, RustChecker,
};

fn exited(code: i32, stdout: &str) -> Outcome {
    Outcome::Exited { code, stdout: Some(stdout.to_string()) }
}

/// Answers the requests of one run; counts the compilations.
fn run(
    handler: &mut MockHandler,
    file: &str,
    op: Operation,
    rules: Option<Vec<String>>,
    verdict: &dyn Fn(&str) -> Outcome,
    compiled: &mut Vec<String>,
) -> Result<Vec<DynamicMetadata>, Error> {
    let (mut run, mut request) = handler.changes(file, op);
    let mut rules = Some(rules);
    loop {
        let reply = match request {
            Request::ListRules { dir } => {
                assert_eq!(dir, "/tmp/dropbox_folder/metadata/input");
                Reply::Rules(rules.take().unwrap())
            },
            Request::Compile { source } => {
                compiled.push(source);
                Reply::Built(exited(0, ""))
            },
            Request::Run { program, arg } => {
                assert_eq!(arg, op.to_string());
                Reply::Ran(verdict(&program))
            },
            Request::Finished(result) => return result,
        };
        request = handler.step(&mut run, reply);
    }
}

fn two_rules() -> Option<Vec<String>> {
    Some(vec![
        "/tmp/dropbox_folder/metadata/input/first".to_string(),
        "/tmp/dropbox_folder/metadata/input/second".to_string(),
    ])
}

#[test]
fn operations_are_named_as_they_are_written() {
    assert_eq!(Operation::Write.to_string(), "Write");
    assert_eq!(Operation::Read.to_string(), "Read");
    assert_eq!(Operation::Open.to_string(), "Open");
    assert_eq!(Operation::Create.to_string(), "Create");
}

#[test]
fn no_rule_directory_means_no_actions() {
    let mut handler = MockHandler::new();
    let mut compiled = Vec::new();
    let actions = run(
        &mut handler,
        "/tmp/dropbox_folder/input.csv",
        Operation::Open,
        None,
        &|_| exited(0, "true"),
        &mut compiled,
    )
    .unwrap();
    assert!(actions.is_empty());
    assert!(compiled.is_empty());
}

#[test]
fn rules_are_found_by_the_stem_of_the_file() {
    let handler = MockHandler::new();
    for (file, stem) in [
        ("/d/input.csv", "input"),
        ("/d/noext", "noext"),
        ("/d/.hidden", ".hidden"),
        ("/d/a.b.c", "a.b"),
        ("/d/a.", "a"),
        ("/d/.a.b", ".a"),
        ("/d/..a", "."),
        ("/d/dir/", "dir"),
    ] {
        let (_, request) = handler.changes(file, Operation::Open);
        let expected = format!("/tmp/dropbox_folder/metadata/{}", stem);
        assert!(
            matches!(request, Request::ListRules { ref dir } if *dir == expected),
            "{:?}",
            file
        );
    }
}

#[test]
fn a_file_without_a_stem_has_no_rules() {
    let handler = MockHandler::new();
    let (_, request) = handler.changes("/", Operation::Read);
    assert!(matches!(request, Request::Finished(Ok(ref v)) if v.is_empty()));
}

#[test]
fn triggered_rules_hand_out_their_execute_units() {
    let mut handler = MockHandler::new();
    let mut compiled = Vec::new();
    let actions = run(
        &mut handler,
        "/tmp/dropbox_folder/input.csv",
        Operation::Write,
        two_rules(),
        &|program| {
            if program.contains("second") {
                exited(0, "true\n")
            } else {
                exited(0, "false\n")
            }
        },
        &mut compiled,
    )
    .unwrap();
    assert_eq!(actions.len(), 1);
    assert_eq!(actions[0].0, "/tmp/dropbox_folder/metadata/input/second/execute/main.rs");
    assert_eq!(
        compiled,
        vec![
            "/tmp/dropbox_folder/metadata/input/first/check/main.rs".to_string(),
            "/tmp/dropbox_folder/metadata/input/second/check/main.rs".to_string(),
        ]
    );
}

#[test]
fn a_check_unit_is_compiled_once_per_operation() {
    let mut handler = MockHandler::new();
    let mut compiled = Vec::new();
    for _ in 0..2 {
        let actions = run(
            &mut handler,
            "/tmp/dropbox_folder/input.csv",
            Operation::Open,
            two_rules(),
            &|_| exited(0, "true"),
            &mut compiled,
        )
        .unwrap();
        assert_eq!(actions.len(), 2);
    }
    assert_eq!(compiled.len(), 2);
    // Another operation has its own cache entries.
    run(
        &mut handler,
        "/tmp/dropbox_folder/input.csv",
        Operation::Read,
        two_rules(),
        &|_| exited(0, "false"),
        &mut compiled,
    )
    .unwrap();
    assert_eq!(compiled.len(), 4);
}

#[test]
fn a_failing_check_ends_the_run() {
    let mut handler = MockHandler::new();
    let mut compiled = Vec::new();
    let r = run(
        &mut handler,
        "/tmp/dropbox_folder/input.csv",
        Operation::Open,
        two_rules(),
        &|_| exited(4, "true"),
        &mut compiled,
    );
    assert!(matches!(r, Err(Error::ExecutionFailure(4))));
    let r = run(
        &mut handler,
        "/tmp/dropbox_folder/input.csv",
        Operation::Open,
        two_rules(),
        &|_| exited(0, "maybe"),
        &mut compiled,
    );
    assert!(matches!(r, Err(Error::ExecutionFailure(22))));
}

#[test]
fn a_failed_compilation_ends_the_run() {
    let mut handler = MockHandler::new();
    let (mut run, request) = handler.changes("/tmp/dropbox_folder/input.csv", Operation::Open);
    assert!(matches!(request, Request::ListRules { .. }));
    let request = handler.step(&mut run, Reply::Rules(two_rules()));
    assert!(matches!(request, Request::Compile { .. }));
    let request = handler.step(&mut run, Reply::Built(exited(101, "")));
    assert!(matches!(request, Request::Finished(Err(Error::CompileFailure(101)))));
}

#[test]
fn an_answer_that_does_not_fit_ends_the_run() {
    let mut handler = MockHandler::new();
    let (mut run, _) = handler.changes("/tmp/dropbox_folder/input.csv", Operation::Open);
    let request = handler.step(&mut run, Reply::Ran(exited(0, "true")));
    assert!(matches!(request, Request::Finished(Err(Error::IoFailure))));
}

#[test]
fn checkers_and_actions_are_found_by_directory_name() {
    assert_eq!(
        RustChecker::source("/rules/r/check"),
        Some("/rules/r/check/main.rs".to_string())
    );
    assert_eq!(RustChecker::source("/rules/r/execute"), None);
    let checker = get_metadata_checker("/rules/r/check", &exited(0, "")).unwrap();
    assert_eq!(checker.0 .0, "/rules/r/check/main");
    assert_eq!(checker.check(Operation::Open, &exited(0, "true")), Ok(true));
    assert_eq!(checker.check(Operation::Open, &exited(1, "true")), Err(Error::ExecutionFailure(1)));
    assert!(matches!(
        get_metadata_checker("/rules/r/other", &exited(0, "")),
        Err(Error::NotFound)
    ));
    assert!(matches!(
        RustChecker::new("/rules/r/check", &exited(9, "")),
        Err(Error::CompileFailure(9))
    ));
    assert_eq!(
        DynamicMetadata::new("/rules/r/execute").map(|a| a.0),
        Some("/rules/r/execute/main.rs".to_string())
    );
    assert!(DynamicMetadata::new("/rules/r/check").is_none());
}
