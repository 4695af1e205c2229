use lh_mount::dynamic_exec::{
    compile_file, run_file, run_file_void, Executable, Outcome,
};
use lh_mount::error::Error;

fn source(dir: &str) -> String {
    format!("{}/temp_{}.rs", dir, "ab1de")
}

fn exited(code: i32, stdout: &str) -> Outcome {
    Outcome::Exited { code, stdout: Some(stdout.to_string()) }
}

#[test]
fn creates_file() {
    // The unit is `fn main(){{}}`: the compiler exits with status zero.
    let path = source("/tmp");
    assert!(compile_file(&path).is_some() && Executable::from_path(&path, &exited(0, "")).is_ok());
}

#[test]
fn execute_path() {
    // The unit is `fn main(){{println!(\"5\")}}`.
    let handle = Executable::from_path(&source("/tmp"), &exited(0, "")).unwrap();
    let _job = handle.command(None);
    assert_eq!(run_file::<isize>(&exited(0, "5\n")).unwrap(), 5);
}

#[test]
fn test_interface() {
    // The unit is `fn main(){{println!(\"12\")}}`.
    let exec = Executable::from_path(&source("/tmp"), &exited(0, "")).unwrap();
    assert_eq!(exec.exec::<i32>(&exited(0, "12\n")).unwrap(), 12);
}

#[test]
fn test_execute_with_arg() {
    // The unit prints its first argument.
    let arg = String::from("foo");
    let exec = Executable::from_path(&source("/tmp"), &exited(0, "")).unwrap();
    let job = exec.command(Some(arg.clone()));
    let echoed = format!("{}\n", job.arg.clone().unwrap());
    assert_eq!(exec.exec::<String>(&exited(0, &echoed)).unwrap(), arg);
}

#[test]
fn the_compile_job_runs_beside_the_source() {
    let job = compile_file("/tmp/rules/check/main.rs").unwrap();
    assert_eq!(job.dir, "/tmp/rules/check");
    assert_eq!(job.file, "main.rs");
    assert_eq!(job.artifact, "/tmp/rules/check/main");
    assert!(compile_file("/").is_none());
    assert!(compile_file("").is_none());
}

#[test]
fn a_failed_compilation_surfaces_the_exit_status() {
    let r = Executable::from_path("/tmp/x/main.rs", &exited(1, ""));
    assert!(matches!(r, Err(Error::CompileFailure(1))));
    let r = Executable::from_path("/tmp/x/main.rs", &Outcome::NotStarted);
    assert!(matches!(r, Err(Error::IoFailure)));
    let r = Executable::from_path("/tmp/x/main.rs", &Outcome::Killed);
    assert!(matches!(r, Err(Error::IoFailure)));
    let r = Executable::from_path("/", &exited(0, ""));
    assert!(matches!(r, Err(Error::NotFound)));
    let exe = Executable::from_path("/tmp/x/main.rs", &exited(0, "")).unwrap();
    assert_eq!(exe.0, "/tmp/x/main");
}

#[test]
fn a_check_that_writes_true_is_a_true_predicate() {
    let exe = Executable("/tmp/x/main".to_string());
    assert_eq!(exe.exec::<bool>(&exited(0, "true")), Ok(true));
    assert_eq!(exe.exec::<bool>(&exited(0, "  true\n")), Ok(true));
    assert_eq!(exe.exec::<bool>(&exited(0, "false\n")), Ok(false));
    assert_eq!(exe.exec::<bool>(&exited(0, "True")), Err(Error::ExecutionFailure(22)));
    assert_eq!(exe.exec::<bool>(&exited(0, "")), Err(Error::ExecutionFailure(22)));
    assert_eq!(exe.exec::<bool>(&exited(3, "true")), Err(Error::ExecutionFailure(3)));
    assert_eq!(
        exe.exec::<bool>(&Outcome::Exited { code: 0, stdout: None }),
        Err(Error::ExecutionFailure(22))
    );
    assert_eq!(exe.exec::<bool>(&Outcome::Killed), Err(Error::IoFailure));
}

#[test]
fn an_execute_unit_succeeds_whatever_it_writes() {
    let exe = Executable("/tmp/x/main".to_string());
    assert_eq!(exe.exec_void(&exited(0, "")), Ok(()));
    assert_eq!(exe.exec_void(&exited(0, "anything at all")), Ok(()));
    assert_eq!(exe.exec_void(&Outcome::Exited { code: 0, stdout: None }), Ok(()));
    assert_eq!(exe.exec_void(&exited(2, "")), Err(Error::ExecutionFailure(2)));
    assert_eq!(run_file_void(&Outcome::NotStarted), Err(Error::IoFailure));
    assert_eq!(exe.exec::<()>(&exited(0, "ignored")), Ok(()));
}

#[test]
fn numbers_are_read_in_their_range() {
    assert_eq!(run_file::<i32>(&exited(0, "2147483647")), Ok(i32::MAX));
    assert_eq!(run_file::<i32>(&exited(0, "2147483648")), Err(Error::ExecutionFailure(22)));
    assert_eq!(run_file::<i32>(&exited(0, "-2147483648")), Ok(i32::MIN));
    assert_eq!(run_file::<i64>(&exited(0, " -7 ")), Ok(-7));
    assert_eq!(run_file::<isize>(&exited(0, "x")), Err(Error::ExecutionFailure(22)));
    assert_eq!(run_file::<String>(&exited(0, "\u{a0}two words\n")), Ok("two words".to_string()));
}
