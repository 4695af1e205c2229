//! Compiled actions: what to run to build and call one, and what the
//! outcome of a run means.

use vstd::prelude::*;

use crate::error::Error;
use crate::paths::{
    file_name, file_stem, join, parent, path_file_name, path_file_stem, path_join, path_parent,
};
use crate::text::{parse_i64, spec_parse_i64, str_eq, trim, trimmed};

verus! {

/// The error code for output that does not parse.
pub const EINVAL: i32 = 22;

/// How a process ended.
#[derive(Debug)]
pub enum Outcome {
    /// The process could not be started.
    NotStarted,
    /// The process ended without an exit status.
    Killed,
    /// The process exited with `code`; `stdout` is what it wrote to its
    /// standard output, `None` where that is not text.
    Exited { code: i32, stdout: Option<String> },
}

/// A type that the output of a compiled action can be read as.
pub trait FromOutput: Sized {
    /// Whether the text `s` denotes a value of this type.
    spec fn readable(s: Seq<char>) -> bool;

    /// Whether `v` is the value that the text `s` denotes.
    spec fn reads_as(s: Seq<char>, v: Self) -> bool;

    /// Reads a value from text.
    fn read(s: &str) -> (r: Option<Self>)
        ensures
            match r {
                Some(v) => Self::readable(s@) && Self::reads_as(s@, v),
                None => !Self::readable(s@),
            },
    ;
}

impl FromOutput for bool {
    open spec fn readable(s: Seq<char>) -> bool {
        s == "true"@ || s == "false"@
    }

    open spec fn reads_as(s: Seq<char>, v: bool) -> bool {
        v == (s == "true"@)
    }

    fn read(s: &str) -> (r: Option<bool>) {
        if str_eq(s, "true") {
            Some(true)
        } else if str_eq(s, "false") {
            proof {
                reveal_strlit("true");
                reveal_strlit("false");
            }
            Some(false)
        } else {
            None
        }
    }
}

impl FromOutput for i64 {
    open spec fn readable(s: Seq<char>) -> bool {
        spec_parse_i64(s) is Some
    }

    open spec fn reads_as(s: Seq<char>, v: i64) -> bool {
        spec_parse_i64(s) == Some(v)
    }

    fn read(s: &str) -> (r: Option<i64>) {
        parse_i64(s)
    }
}

impl FromOutput for i32 {
    open spec fn readable(s: Seq<char>) -> bool {
        spec_parse_i64(s) matches Some(n) && i32::MIN <= n <= i32::MAX
    }

    open spec fn reads_as(s: Seq<char>, v: i32) -> bool {
        spec_parse_i64(s) == Some(v as i64)
    }

    fn read(s: &str) -> (r: Option<i32>) {
        match parse_i64(s) {
            Some(n) => if -2147483648 <= n && n <= 2147483647 {
                Some(n as i32)
            } else {
                None
            },
            None => None,
        }
    }
}

impl FromOutput for isize {
    open spec fn readable(s: Seq<char>) -> bool {
        spec_parse_i64(s) matches Some(n) && isize::MIN <= n <= isize::MAX
    }

    open spec fn reads_as(s: Seq<char>, v: isize) -> bool {
        spec_parse_i64(s) == Some(v as i64)
    }

    fn read(s: &str) -> (r: Option<isize>) {
        match parse_i64(s) {
            Some(n) => if isize::MIN as i64 <= n && n <= isize::MAX as i64 {
                Some(n as isize)
            } else {
                None
            },
            None => None,
        }
    }
}

impl FromOutput for String {
    open spec fn readable(s: Seq<char>) -> bool {
        true
    }

    open spec fn reads_as(s: Seq<char>, v: String) -> bool {
        v@ == s
    }

    fn read(s: &str) -> (r: Option<String>) {
        Some(s.to_owned())
    }
}

impl FromOutput for () {
    open spec fn readable(s: Seq<char>) -> bool {
        true
    }

    open spec fn reads_as(s: Seq<char>, v: ()) -> bool {
        true
    }

    fn read(s: &str) -> (r: Option<()>) {
        Some(())
    }
}

/// What a run wrote to its standard output, without the white space
/// around it.
pub open spec fn run_output(outcome: Outcome) -> Seq<char> {
    match outcome {
        Outcome::Exited { stdout: Some(out), .. } => trimmed(out@),
        _ => Seq::empty(),
    }
}

/// What a run of a compiled action yields when a value of type `T` is
/// expected, apart from the value itself: the failure, if it is one.
pub open spec fn run_failure<T: FromOutput>(outcome: Outcome) -> Option<Error> {
    match outcome {
        Outcome::Exited { code, stdout } => if code != 0 {
            Some(Error::ExecutionFailure(code))
        } else {
            match stdout {
                Some(out) => if T::readable(trimmed(out@)) {
                    None
                } else {
                    Some(Error::ExecutionFailure(EINVAL))
                },
                None => Some(Error::ExecutionFailure(EINVAL)),
            }
        },
        _ => Some(Error::IoFailure),
    }
}

/// Reads the outcome of a run as a value of type `T`. A run that exited
/// with status zero yields what its trimmed output denotes; output that
/// denotes nothing, and any other exit status, is an execution failure.
pub fn run_file<T: FromOutput>(outcome: &Outcome) -> (r: Result<T, Error>)
    ensures
        match r {
            Ok(v) => run_failure::<T>(*outcome) is None && T::reads_as(run_output(*outcome), v),
            Err(e) => run_failure::<T>(*outcome) == Some(e),
        },
{
    match outcome {
        Outcome::Exited { code, stdout } => {
            if *code != 0 {
                return Err(Error::ExecutionFailure(*code));
            }
            match stdout {
                Some(out) => {
                    let text = trim(out.as_str());
                    match T::read(text.as_str()) {
                        Some(v) => Ok(v),
                        None => Err(Error::ExecutionFailure(EINVAL)),
                    }
                },
                None => Err(Error::ExecutionFailure(EINVAL)),
            }
        },
        _ => Err(Error::IoFailure),
    }
}

/// What a run of a compiled action yields when nothing is expected of its
/// output.
pub open spec fn spec_run_file_void(outcome: Outcome) -> Result<(), Error> {
    match outcome {
        Outcome::Exited { code, .. } => if code == 0 {
            Ok(())
        } else {
            Err(Error::ExecutionFailure(code))
        },
        _ => Err(Error::IoFailure),
    }
}

/// Reads the outcome of a run of which no output is expected: a run that
/// exited with status zero succeeds, whatever it wrote.
pub fn run_file_void(outcome: &Outcome) -> (r: Result<(), Error>)
    ensures
        r == spec_run_file_void(*outcome),
{
    match outcome {
        Outcome::Exited { code, .. } => if *code == 0 {
            Ok(())
        } else {
            Err(Error::ExecutionFailure(*code))
        },
        _ => Err(Error::IoFailure),
    }
}

/// What the exit status and the output of a compiled action mean. A
/// check that exits with status zero and writes `true`, with or without
/// white space around it, is a true predicate. A run that exits with
/// another status is an execution failure with that status, whatever it
/// wrote. A run of which no output is expected succeeds exactly when it
/// exits with status zero.
pub proof fn law_exit_status_decides(code: i32, stdout: Option<String>)
    ensures
        code != 0 ==> run_failure::<bool>(Outcome::Exited { code, stdout }) == Some(
            Error::ExecutionFailure(code),
        ),
        code != 0 ==> spec_run_file_void(Outcome::Exited { code, stdout }) == Err::<(), Error>(
            Error::ExecutionFailure(code),
        ),
        spec_run_file_void(Outcome::Exited { code: 0, stdout }) == Ok::<(), Error>(()),
        stdout matches Some(out) ==> (trimmed(out@) == "true"@ ==> run_failure::<bool>(
            Outcome::Exited { code: 0, stdout },
        ) is None && <bool as FromOutput>::reads_as(
            run_output(Outcome::Exited { code: 0, stdout }),
            true,
        )),
{
}

/// What to run to compile a source file.
#[derive(Debug)]
pub struct CompileJob {
    /// The directory to run the compiler in.
    pub dir: String,
    /// The file to hand to the compiler.
    pub file: String,
    /// Where the compiler leaves the executable.
    pub artifact: String,
}

/// Whether the compile job of the source file `path` is `job`: the
/// compiler runs in the parent directory on the file name and leaves the
/// executable beside the source, named by its stem.
pub open spec fn is_compile_job(path: Seq<char>, job: CompileJob) -> bool {
    &&& path_parent(path) == Some(job.dir@)
    &&& path_file_name(path) == Some(job.file@)
    &&& path_file_stem(path) matches Some(stem) && job.artifact@ == path_join(job.dir@, stem)
}

/// Where the compiler leaves the executable of the source file `path`:
/// beside the source, named by its stem.
pub open spec fn artifact_path(path: Seq<char>) -> Seq<char> {
    path_join(path_parent(path)->0, path_file_stem(path)->0)
}

/// Whether the path `path` names a source file that can be compiled: it
/// has a parent directory, a file name and a stem.
pub open spec fn compilable(path: Seq<char>) -> bool {
    path_parent(path) is Some && path_file_name(path) is Some && path_file_stem(path) is Some
}

/// The job that compiles the source file `path`.
pub fn compile_file(path: &str) -> (r: Option<CompileJob>)
    ensures
        match r {
            Some(job) => is_compile_job(path@, job),
            None => !compilable(path@),
        },
{
    let dir = match parent(path) {
        Some(dir) => dir,
        None => {
            return None;
        },
    };
    let file = match file_name(path) {
        Some(file) => file,
        None => {
            return None;
        },
    };
    let stem = match file_stem(path) {
        Some(stem) => stem,
        None => {
            return None;
        },
    };
    let artifact = join(dir.as_str(), stem.as_str());
    Some(CompileJob { dir, file, artifact })
}

/// What a compilation yields, apart from the executable: the failure, if
/// it is one.
pub open spec fn compile_failure(path: Seq<char>, outcome: Outcome) -> Option<Error> {
    if !compilable(path) {
        Some(Error::NotFound)
    } else {
        match outcome {
            Outcome::Exited { code, .. } => if code == 0 {
                None
            } else {
                Some(Error::CompileFailure(code))
            },
            _ => Some(Error::IoFailure),
        }
    }
}

/// A compiled action: an executable built from one source file.
#[derive(Debug)]
pub struct Executable(pub String);

/// What to run to call a compiled action.
#[derive(Debug)]
pub struct RunJob {
    /// The executable.
    pub program: String,
    /// Its single argument, if it gets one.
    pub arg: Option<String>,
}

impl Executable {
    /// The compiled action of the source file `path`, given how its
    /// compilation ended.
    pub fn from_path(path: &str, compilation: &Outcome) -> (r: Result<Executable, Error>)
        ensures
            match r {
                Ok(exe) => compile_failure(path@, *compilation) is None && exe.0@
                    == artifact_path(path@),
                Err(e) => compile_failure(path@, *compilation) == Some(e),
            },
    {
        let job = match compile_file(path) {
            Some(job) => job,
            None => {
                return Err(Error::NotFound);
            },
        };
        match compilation {
            Outcome::Exited { code, .. } => if *code == 0 {
                Ok(Executable(job.artifact))
            } else {
                Err(Error::CompileFailure(*code))
            },
            _ => Err(Error::IoFailure),
        }
    }

    /// What to run to call this action with `arg`.
    pub fn command(&self, arg: Option<String>) -> (job: RunJob)
        ensures
            job.program@ == self.0@,
            job.arg == arg,
    {
        RunJob { program: self.0.clone(), arg }
    }

    /// Reads the outcome of a call of this action as a value of type `T`.
    pub fn exec<T: FromOutput>(&self, outcome: &Outcome) -> (r: Result<T, Error>)
        ensures
            match r {
                Ok(v) => run_failure::<T>(*outcome) is None && T::reads_as(
                    run_output(*outcome),
                    v,
                ),
                Err(e) => run_failure::<T>(*outcome) == Some(e),
            },
    {
        run_file::<T>(outcome)
    }

    /// Reads the outcome of a call of this action of which no output is
    /// expected.
    pub fn exec_void(&self, outcome: &Outcome) -> (r: Result<(), Error>)
        ensures
            r == spec_run_file_void(*outcome),
    {
        run_file_void(outcome)
    }
}

} // verus!
