//! The policy runtime: which rules apply to a file operation, decided
//! step by step while a host lists directories, compiles and runs.

use vstd::prelude::*;

use crate::dynamic_exec::{
    artifact_path, compile_failure, run_failure, run_output, Executable, Outcome,
};
use crate::error::Error;
use crate::paths::{file_name, file_stem, join, path_file_name, path_file_stem, path_join};
use crate::text::{str_eq, texts};

verus! {

/// A file operation that rules can react to.
#[derive(PartialEq, Eq, Hash, Debug, Clone, Copy, Structural)]
pub enum Operation {
    Write,
    Read,
    Open,
    Create,
}

impl Operation {
    /// The name that a check unit receives as its argument.
    pub open spec fn spec_name(&self) -> Seq<char> {
        match self {
            Operation::Write => "Write"@,
            Operation::Read => "Read"@,
            Operation::Open => "Open"@,
            Operation::Create => "Create"@,
        }
    }

    /// The name that a check unit receives as its argument.
    pub fn to_string(&self) -> (s: String)
        ensures
            s@ == self.spec_name(),
    {
        match self {
            Operation::Write => "Write".to_owned(),
            Operation::Read => "Read".to_owned(),
            Operation::Open => "Open".to_owned(),
            Operation::Create => "Create".to_owned(),
        }
    }
}

/// The source file of the unit in the directory `dir`.
pub open spec fn unit_source(dir: Seq<char>) -> Seq<char> {
    path_join(dir, "main.rs"@)
}

/// The directory of the check unit of the rule `rule`.
pub open spec fn check_dir(rule: Seq<char>) -> Seq<char> {
    path_join(rule, "check"@)
}

/// The source file of the execute unit of the rule `rule`.
pub open spec fn execute_source(rule: Seq<char>) -> Seq<char> {
    unit_source(path_join(rule, "execute"@))
}

/// The compiled check unit of a rule: a predicate on operations.
#[derive(Debug)]
pub struct RustChecker(pub Executable);

impl RustChecker {
    /// Where the source of the check unit in the directory `path` lies;
    /// `None` unless the directory is named `check`.
    pub fn source(path: &str) -> (r: Option<String>)
        ensures
            match r {
                Some(s) => path_file_name(path@) == Some("check"@) && s@ == unit_source(path@),
                None => path_file_name(path@) != Some("check"@),
            },
    {
        match file_name(path) {
            Some(name) => if str_eq(name.as_str(), "check") {
                Some(join(path, "main.rs"))
            } else {
                None
            },
            None => None,
        }
    }

    /// The checker of the check unit in the directory `path`, given how
    /// the compilation of its source ended.
    pub fn new(path: &str, compilation: &Outcome) -> (r: Result<RustChecker, Error>)
        ensures
            match r {
                Ok(checker) => path_file_name(path@) == Some("check"@) && compile_failure(
                    unit_source(path@),
                    *compilation,
                ) is None && checker.0.0@ == artifact_path(unit_source(path@)),
                Err(e) => if path_file_name(path@) == Some("check"@) {
                    compile_failure(unit_source(path@), *compilation) == Some(e)
                } else {
                    e == Error::NotFound
                },
            },
    {
        match Self::source(path) {
            Some(source) => match Executable::from_path(source.as_str(), compilation) {
                Ok(exe) => Ok(RustChecker(exe)),
                Err(e) => Err(e),
            },
            None => Err(Error::NotFound),
        }
    }

}

/// A piece of metadata that a rule keeps up to date.
pub trait Metadata {
    /// The verdict of the rule's check on an operation, given how the run
    /// of the check ended: whether the check wrote `true`.
    fn check(&self, op: Operation, outcome: &Outcome) -> (r: Result<bool, Error>)
        ensures
            match r {
                Ok(b) => run_failure::<bool>(*outcome) is None && b == (run_output(*outcome)
                    == "true"@),
                Err(e) => run_failure::<bool>(*outcome) == Some(e),
            },
    ;
}

impl Metadata for RustChecker {
    fn check(&self, op: Operation, outcome: &Outcome) -> (r: Result<bool, Error>) {
        self.0.exec::<bool>(outcome)
    }
}

/// The checker of the check unit in the directory `path`.
pub fn get_metadata_checker(path: &str, compilation: &Outcome) -> (r: Result<RustChecker, Error>)
    ensures
        match r {
            Ok(checker) => path_file_name(path@) == Some("check"@) && compile_failure(
                unit_source(path@),
                *compilation,
            ) is None && checker.0.0@ == artifact_path(unit_source(path@)),
            Err(e) => if path_file_name(path@) == Some("check"@) {
                compile_failure(unit_source(path@), *compilation) == Some(e)
            } else {
                e == Error::NotFound
            },
        },
{
    RustChecker::new(path, compilation)
}

/// The execute unit of a rule that was triggered: the source file to
/// compile and run.
#[derive(Debug)]
pub struct DynamicMetadata(pub String);

impl DynamicMetadata {
    /// The action of the execute unit in the directory `path`; `None`
    /// unless the directory is named `execute`.
    pub fn new(path: &str) -> (r: Option<DynamicMetadata>)
        ensures
            match r {
                Some(action) => path_file_name(path@) == Some("execute"@) && action.0@
                    == unit_source(path@),
                None => path_file_name(path@) != Some("execute"@),
            },
    {
        match file_name(path) {
            Some(name) => if str_eq(name.as_str(), "execute") {
                Some(DynamicMetadata(join(path, "main.rs")))
            } else {
                None
            },
            None => None,
        }
    }
}

/// The source files of the actions `actions`.
pub open spec fn sources(actions: Seq<DynamicMetadata>) -> Seq<Seq<char>> {
    Seq::new(actions.len(), |i: int| actions[i].0@)
}

/// Where a run of `changes` stands.
#[derive(Debug, Clone, Copy, PartialEq, Eq, Structural)]
pub enum Phase {
    /// The rule directories were asked for.
    Listing,
    /// The check unit of the current rule is being compiled.
    Building,
    /// The check unit of the current rule is being run.
    Checking,
    /// The run is over.
    Finished,
}

/// What the host is asked to do next.
#[derive(Debug)]
pub enum Request {
    /// List the directories in `dir`, each with its path.
    ListRules { dir: String },
    /// Compile the source file `source`.
    Compile { source: String },
    /// Run `program` with the single argument `arg`.
    Run { program: String, arg: String },
    /// Nothing more: the actions that were triggered, or the failure.
    Finished(Result<Vec<DynamicMetadata>, Error>),
}

/// What the host answers.
#[derive(Debug)]
pub enum Reply {
    /// The directories found; `None` where there is no such directory.
    Rules(Option<Vec<String>>),
    /// How the compilation ended.
    Built(Outcome),
    /// How the run ended.
    Ran(Outcome),
}

/// A request as plain text.
pub enum RequestView {
    ListRules(Seq<char>),
    Compile(Seq<char>),
    Run(Seq<char>, Seq<char>),
    Finished(Result<Seq<Seq<char>>, Error>),
}

impl Request {
    /// This request as plain text.
    pub open spec fn view(&self) -> RequestView {
        match self {
            Request::ListRules { dir } => RequestView::ListRules(dir@),
            Request::Compile { source } => RequestView::Compile(source@),
            Request::Run { program, arg } => RequestView::Run(program@, arg@),
            Request::Finished(Ok(actions)) => RequestView::Finished(Ok(sources(actions@))),
            Request::Finished(Err(e)) => RequestView::Finished(Err(*e)),
        }
    }
}

/// The compiled check units by directory and operation: where each
/// executable lies.
pub type Cache = Map<(Seq<char>, Operation), Seq<char>>;

/// A run of `changes` as plain values.
pub struct RunState {
    /// The operation that the rules are asked about.
    pub operation: Operation,
    /// The rule directories.
    pub rules: Seq<Seq<char>>,
    /// How many rules were dealt with.
    pub next: nat,
    pub phase: Phase,
    /// The source files of the execute units triggered so far.
    pub triggered: Seq<Seq<char>>,
}

/// A run that has ended, its actions handed over.
pub open spec fn finished(r: RunState) -> RunState {
    RunState { phase: Phase::Finished, triggered: Seq::empty(), ..r }
}

/// The next request of a run that is about to deal with its next rule,
/// and the run after it: the end where no rule is left; a run of the check
/// unit where the cache holds it; its compilation otherwise.
pub open spec fn advance(cache: Cache, r: RunState) -> (RunState, RequestView) {
    if r.next >= r.rules.len() {
        (finished(r), RequestView::Finished(Ok(r.triggered)))
    } else {
        let key = (check_dir(r.rules[r.next as int]), r.operation);
        if cache.dom().contains(key) {
            (
                RunState { phase: Phase::Checking, ..r },
                RequestView::Run(cache[key], r.operation.spec_name()),
            )
        } else {
            (RunState { phase: Phase::Building, ..r }, RequestView::Compile(unit_source(key.0)))
        }
    }
}

/// One step of a run: the cache, the run and the request after the host
/// answered `reply`.
pub open spec fn spec_step(cache: Cache, r: RunState, reply: Reply) -> (
    Cache,
    RunState,
    RequestView,
) {
    match (r.phase, reply) {
        (Phase::Listing, Reply::Rules(None)) => (
            cache,
            finished(r),
            RequestView::Finished(Ok(Seq::empty())),
        ),
        (Phase::Listing, Reply::Rules(Some(list))) => {
            let (after, request) = advance(cache, RunState { rules: texts(list@), next: 0, ..r });
            (cache, after, request)
        },
        (Phase::Building, Reply::Built(outcome)) => {
            let dir = check_dir(r.rules[r.next as int]);
            match compile_failure(unit_source(dir), outcome) {
                Some(e) => (cache, finished(r), RequestView::Finished(Err(e))),
                None => {
                    let artifact = artifact_path(unit_source(dir));
                    (
                        cache.insert((dir, r.operation), artifact),
                        RunState { phase: Phase::Checking, ..r },
                        RequestView::Run(artifact, r.operation.spec_name()),
                    )
                },
            }
        },
        (Phase::Checking, Reply::Ran(outcome)) => match run_failure::<bool>(outcome) {
            Some(e) => (cache, finished(r), RequestView::Finished(Err(e))),
            None => {
                let triggered = if run_output(outcome) == "true"@ {
                    r.triggered.push(execute_source(r.rules[r.next as int]))
                } else {
                    r.triggered
                };
                let (after, request) = advance(
                    cache,
                    RunState { next: r.next + 1, triggered, ..r },
                );
                (cache, after, request)
            },
        },
        _ => (cache, finished(r), RequestView::Finished(Err(Error::IoFailure))),
    }
}

/// A check unit that the cache holds is not compiled again: the run goes
/// on to call it.
pub proof fn law_cached_check_is_not_compiled(cache: Cache, r: RunState)
    requires
        r.next < r.rules.len(),
        cache.dom().contains((check_dir(r.rules[r.next as int]), r.operation)),
    ensures
        advance(cache, r).1 == RequestView::Run(
            cache[(check_dir(r.rules[r.next as int]), r.operation)],
            r.operation.spec_name(),
        ),
        !(advance(cache, r).1 is Compile),
{
}

/// A check unit that was compiled is in the cache from then on: no step
/// takes anything out of the cache, and the step that receives a
/// successful compilation puts the unit in.
pub proof fn law_cache_keeps_what_was_built(cache: Cache, r: RunState, reply: Reply)
    ensures
        forall|key: (Seq<char>, Operation)|
            cache.dom().contains(key) ==> spec_step(cache, r, reply).0.dom().contains(key),
        r.phase == Phase::Building ==> (reply matches Reply::Built(outcome) ==> (compile_failure(
            unit_source(check_dir(r.rules[r.next as int])),
            outcome,
        ) is None ==> spec_step(cache, r, reply).0.dom().contains(
            (check_dir(r.rules[r.next as int]), r.operation),
        ))),
{
}


/// One compiled check unit in the cache.
#[derive(Debug)]
struct Cached {
    dir: String,
    operation: Operation,
    checker: RustChecker,
}

impl Cached {
    spec fn key(&self) -> (Seq<char>, Operation) {
        (self.dir@, self.operation)
    }

    spec fn artifact(&self) -> Seq<char> {
        self.checker.0.0@
    }
}

/// Whether some entry of `entries` has the key `key`.
spec fn is_cached(entries: Seq<Cached>, key: (Seq<char>, Operation)) -> bool {
    exists|i: int| 0 <= i < entries.len() && #[trigger] entries[i].key() == key
}

/// The position of an entry with the key `key`.
spec fn cached_at(entries: Seq<Cached>, key: (Seq<char>, Operation)) -> int {
    choose|i: int| 0 <= i < entries.len() && #[trigger] entries[i].key() == key
}

/// Whether no two entries share a key.
spec fn distinct_units(entries: Seq<Cached>) -> bool {
    forall|i: int, j: int|
        0 <= i < entries.len() && 0 <= j < entries.len() && i != j ==> #[trigger] entries[i].key()
            != #[trigger] entries[j].key()
}

/// The cache that `entries` hold.
spec fn cache_of(entries: Seq<Cached>) -> Cache {
    Map::new(
        |key: (Seq<char>, Operation)| is_cached(entries, key),
        |key: (Seq<char>, Operation)| entries[cached_at(entries, key)].artifact(),
    )
}

proof fn lemma_cached_at(entries: Seq<Cached>, i: int)
    requires
        distinct_units(entries),
        0 <= i < entries.len(),
    ensures
        is_cached(entries, entries[i].key()),
        cached_at(entries, entries[i].key()) == i,
        cache_of(entries)[entries[i].key()] == entries[i].artifact(),
{
}

proof fn lemma_cache_push(entries: Seq<Cached>, unit: Cached)
    requires
        distinct_units(entries),
        !is_cached(entries, unit.key()),
    ensures
        distinct_units(entries.push(unit)),
        cache_of(entries.push(unit)) == cache_of(entries).insert(unit.key(), unit.artifact()),
{
    let after = entries.push(unit);
    let expected = cache_of(entries).insert(unit.key(), unit.artifact());
    assert forall|k: (Seq<char>, Operation)|
        cache_of(after).dom().contains(k) <==> expected.dom().contains(k) by {
        if is_cached(after, k) {
            let i = cached_at(after, k);
            if i < entries.len() {
                assert(entries[i].key() == k);
            }
        }
        if is_cached(entries, k) {
            let i = cached_at(entries, k);
            assert(after[i].key() == k);
        }
        if k == unit.key() {
            assert(after[entries.len() as int].key() == k);
        }
    }
    assert forall|k: (Seq<char>, Operation)| cache_of(after).dom().contains(k) implies cache_of(
        after,
    )[k] == expected[k] by {
        let i = cached_at(after, k);
        lemma_cached_at(after, i);
        if i < entries.len() {
            assert(after[i] == entries[i]);
            lemma_cached_at(entries, i);
        }
    }
    assert(cache_of(after) =~= expected);
}

proof fn lemma_cache_update(entries: Seq<Cached>, i: int, unit: Cached)
    requires
        distinct_units(entries),
        0 <= i < entries.len(),
        unit.key() == entries[i].key(),
    ensures
        distinct_units(entries.update(i, unit)),
        cache_of(entries.update(i, unit)) == cache_of(entries).insert(unit.key(), unit.artifact()),
{
    let after = entries.update(i, unit);
    assert(distinct_units(after)) by {
        assert forall|a: int, b: int|
            0 <= a < after.len() && 0 <= b < after.len() && a != b implies #[trigger] after[a].key()
            != #[trigger] after[b].key() by {
            assert(after[a].key() == entries[a].key());
            assert(after[b].key() == entries[b].key());
        }
    }
    let expected = cache_of(entries).insert(unit.key(), unit.artifact());
    assert forall|k: (Seq<char>, Operation)|
        cache_of(after).dom().contains(k) <==> expected.dom().contains(k) by {
        if is_cached(after, k) {
            let j = cached_at(after, k);
            assert(entries[j].key() == k);
        }
        if is_cached(entries, k) {
            let j = cached_at(entries, k);
            assert(after[j].key() == k);
        }
        if k == unit.key() {
            assert(after[i].key() == k);
        }
    }
    assert forall|k: (Seq<char>, Operation)| cache_of(after).dom().contains(k) implies cache_of(
        after,
    )[k] == expected[k] by {
        let j = cached_at(after, k);
        lemma_cached_at(after, j);
        if j != i {
            assert(after[j] == entries[j]);
            lemma_cached_at(entries, j);
        }
    }
    assert(cache_of(after) =~= expected);
}

/// The policy runtime: where the rules lie, and the check units compiled
/// so far.
#[derive(Debug)]
pub struct MockHandler {
    root_folder: String,
    check_cache: Vec<Cached>,
}

/// One run of `changes`: the rules of one file, asked about one operation.
#[derive(Debug)]
pub struct Changes {
    operation: Operation,
    rules: Vec<String>,
    next: usize,
    phase: Phase,
    triggered: Vec<DynamicMetadata>,
}

impl View for Changes {
    type V = RunState;

    closed spec fn view(&self) -> RunState {
        RunState {
            operation: self.operation,
            rules: texts(self.rules@),
            next: self.next as nat,
            phase: self.phase,
            triggered: sources(self.triggered@),
        }
    }
}

impl Changes {
    /// The invariant of a run: while a unit is compiled or run, there is a
    /// current rule.
    pub closed spec fn wf(&self) -> bool {
        &&& self.next <= self.rules.len()
        &&& (self.phase == Phase::Building || self.phase == Phase::Checking) ==> self.next
            < self.rules.len()
    }
}

impl MockHandler {
    /// The directory that holds one directory of rules for each dataset.
    pub closed spec fn root(&self) -> Seq<char> {
        self.root_folder@
    }

    /// The compiled check units.
    pub closed spec fn cache(&self) -> Cache {
        cache_of(self.check_cache@)
    }

    /// The invariant of the runtime: no check unit is cached twice.
    pub closed spec fn wf(&self) -> bool {
        distinct_units(self.check_cache@)
    }

    /// A runtime with an empty cache.
    pub fn new() -> (h: MockHandler)
        ensures
            h.wf(),
            h.root() == "/tmp/dropbox_folder/metadata/"@,
            h.cache() == Map::<(Seq<char>, Operation), Seq<char>>::empty(),
    {
        let h = MockHandler {
            root_folder: "/tmp/dropbox_folder/metadata/".to_owned(),
            check_cache: Vec::new(),
        };
        assert(h.cache() =~= Map::<(Seq<char>, Operation), Seq<char>>::empty());
        h
    }

    /// The position of the check unit of `dir` for `operation` in the
    /// cache.
    fn lookup(&self, dir: &str, operation: Operation) -> (r: Option<usize>)
        ensures
            match r {
                Some(i) => i < self.check_cache.len() && self.check_cache[i as int].key() == (
                    dir@,
                    operation,
                ),
                None => !self.cache().dom().contains((dir@, operation)),
            },
    {
        let mut i: usize = 0;
        while i < self.check_cache.len()
            invariant
                i <= self.check_cache.len(),
                forall|j: int| 0 <= j < i ==> self.check_cache[j].key() != (dir@, operation),
            decreases self.check_cache.len() - i,
        {
            if self.check_cache[i].operation == operation && str_eq(
                self.check_cache[i].dir.as_str(),
                dir,
            ) {
                return Some(i);
            }
            i = i + 1;
        }
        None
    }

    /// Ends a run with a failure.
    fn fail(run: &mut Changes, e: Error) -> (request: Request)
        requires
            old(run).wf(),
        ensures
            final(run)@ == finished(old(run)@),
            final(run).wf(),
            request@ == RequestView::Finished(Err(e)),
    {
        run.phase = Phase::Finished;
        run.triggered = Vec::new();
        assert(sources(run.triggered@) =~= Seq::<Seq<char>>::empty());
        Request::Finished(Err(e))
    }

    /// Turns to the next rule of a run.
    fn advance(&self, run: &mut Changes) -> (request: Request)
        requires
            self.wf(),
            old(run).next <= old(run).rules.len(),
        ensures
            final(run).wf(),
            (final(run)@, request@) == advance(self.cache(), old(run)@),
    {
        if run.next >= run.rules.len() {
            run.phase = Phase::Finished;
            let mut out: Vec<DynamicMetadata> = Vec::new();
            std::mem::swap(&mut out, &mut run.triggered);
            assert(sources(run.triggered@) =~= Seq::<Seq<char>>::empty());
            return Request::Finished(Ok(out));
        }
        let dir = join(run.rules[run.next].as_str(), "check");
        assert(texts(run.rules@)[run.next as int] == run.rules@[run.next as int]@);
        match self.lookup(dir.as_str(), run.operation) {
            Some(i) => {
                proof {
                    lemma_cached_at(self.check_cache@, i as int);
                }
                run.phase = Phase::Checking;
                Request::Run {
                    program: self.check_cache[i].checker.0.0.clone(),
                    arg: run.operation.to_string(),
                }
            },
            None => {
                run.phase = Phase::Building;
                Request::Compile { source: join(dir.as_str(), "main.rs") }
            },
        }
    }

}

/// The verdict of a check unit, given how its run ended.
fn run_bool(outcome: &Outcome) -> (r: Result<bool, Error>)
    ensures
        match r {
            Ok(b) => run_failure::<bool>(*outcome) is None && b == (run_output(*outcome)
                == "true"@),
            Err(e) => run_failure::<bool>(*outcome) == Some(e),
        },
{
    crate::dynamic_exec::run_file::<bool>(outcome)
}


/// Something that says which rules an operation on a file triggers, one
/// request to its host at a time.
pub trait MetadataHandler {
    /// The invariant of the handler.
    spec fn valid(&self) -> bool;

    /// The directory that holds one directory of rules for each dataset.
    spec fn rule_root(&self) -> Seq<char>;

    /// The compiled check units.
    spec fn compiled(&self) -> Cache;

    /// Starts a run for the file `file` and the operation `operation`:
    /// asks for the rule directories of the file's stem. A file without a
    /// stem has no rules.
    fn changes(&self, file: &str, operation: Operation) -> (r: (Changes, Request))
        ensures
            r.0.wf(),
            r.0@.operation == operation,
            r.0@.rules == Seq::<Seq<char>>::empty(),
            r.0@.next == 0,
            r.0@.triggered == Seq::<Seq<char>>::empty(),
            match path_file_stem(file@) {
                Some(stem) => r.0@.phase == Phase::Listing && r.1@ == RequestView::ListRules(
                    path_join(self.rule_root(), stem),
                ),
                None => r.0@.phase == Phase::Finished && r.1@ == RequestView::Finished(
                    Ok(Seq::empty()),
                ),
            },
    ;

    /// Takes the host's answer to the last request of a run and says what
    /// to do next.
    fn step(&mut self, run: &mut Changes, reply: Reply) -> (request: Request)
        requires
            old(self).valid(),
            old(run).wf(),
        ensures
            final(self).valid(),
            final(run).wf(),
            final(self).rule_root() == old(self).rule_root(),
            (final(self).compiled(), final(run)@, request@) == spec_step(
                old(self).compiled(),
                old(run)@,
                reply,
            ),
    ;
}

impl MetadataHandler for MockHandler {
    open spec fn valid(&self) -> bool {
        self.wf()
    }

    open spec fn rule_root(&self) -> Seq<char> {
        self.root()
    }

    open spec fn compiled(&self) -> Cache {
        self.cache()
    }

    fn changes(&self, file: &str, operation: Operation) -> (r: (Changes, Request))
    {
        let mut run = Changes {
            operation,
            rules: Vec::new(),
            next: 0,
            phase: Phase::Listing,
            triggered: Vec::new(),
        };
        assert(texts(run.rules@) =~= Seq::<Seq<char>>::empty());
        assert(sources(run.triggered@) =~= Seq::<Seq<char>>::empty());
        match file_stem(file) {
            Some(stem) => {
                let dir = join(self.root_folder.as_str(), stem.as_str());
                (run, Request::ListRules { dir })
            },
            None => {
                run.phase = Phase::Finished;
                let none: Vec<DynamicMetadata> = Vec::new();
                assert(sources(none@) =~= Seq::<Seq<char>>::empty());
                (run, Request::Finished(Ok(none)))
            },
        }
    }

    fn step(&mut self, run: &mut Changes, reply: Reply) -> (request: Request)
    {
        match reply {
            Reply::Rules(listing) => {
                if run.phase != Phase::Listing {
                    return Self::fail(run, Error::IoFailure);
                }
                match listing {
                    None => {
                        run.phase = Phase::Finished;
                        run.triggered = Vec::new();
                        let none: Vec<DynamicMetadata> = Vec::new();
                        assert(sources(none@) =~= Seq::<Seq<char>>::empty());
                        assert(sources(run.triggered@) =~= Seq::<Seq<char>>::empty());
                        Request::Finished(Ok(none))
                    },
                    Some(list) => {
                        run.rules = list;
                        run.next = 0;
                        self.advance(run)
                    },
                }
            },
            Reply::Built(outcome) => {
                if run.phase != Phase::Building {
                    return Self::fail(run, Error::IoFailure);
                }
                assert(texts(run.rules@)[run.next as int] == run.rules@[run.next as int]@);
                let dir = join(run.rules[run.next].as_str(), "check");
                let source = join(dir.as_str(), "main.rs");
                match Executable::from_path(source.as_str(), &outcome) {
                    Ok(exe) => {
                        let program = exe.0.clone();
                        let unit = Cached {
                            dir,
                            operation: run.operation,
                            checker: RustChecker(exe),
                        };
                        match self.lookup(unit.dir.as_str(), run.operation) {
                            Some(i) => {
                                proof {
                                    lemma_cache_update(self.check_cache@, i as int, unit);
                                }
                                self.check_cache.set(i, unit);
                            },
                            None => {
                                proof {
                                    lemma_cache_push(self.check_cache@, unit);
                                }
                                self.check_cache.push(unit);
                            },
                        }
                        run.phase = Phase::Checking;
                        Request::Run { program, arg: run.operation.to_string() }
                    },
                    Err(e) => Self::fail(run, e),
                }
            },
            Reply::Ran(outcome) => {
                if run.phase != Phase::Checking {
                    return Self::fail(run, Error::IoFailure);
                }
                assert(texts(run.rules@)[run.next as int] == run.rules@[run.next as int]@);
                match run_bool(&outcome) {
                    Ok(verdict) => {
                        if verdict {
                            let unit = join(run.rules[run.next].as_str(), "execute");
                            let action = DynamicMetadata(join(unit.as_str(), "main.rs"));
                            let ghost before = sources(run.triggered@);
                            run.triggered.push(action);
                            assert(sources(run.triggered@) =~= before.push(action.0@));
                        }
                        run.next = run.next + 1;
                        self.advance(run)
                    },
                    Err(e) => Self::fail(run, e),
                }
            },
        }
    }
}


/// A run together with the cache and the request that is waiting for its
/// answer.
pub struct Progress {
    pub cache: Cache,
    pub run: RunState,
    pub request: RequestView,
}

/// A host that answers every request of one kind in one way: what it
/// lists, how each source file compiles, how each program runs.
pub struct Host {
    pub listing: Option<Vec<String>>,
    pub build: spec_fn(Seq<char>) -> Outcome,
    pub run: spec_fn(Seq<char>, Seq<char>) -> Outcome,
}

/// The answer of `host` to `request`.
pub open spec fn host_reply(host: Host, request: RequestView) -> Reply {
    match request {
        RequestView::Compile(source) => Reply::Built((host.build)(source)),
        RequestView::Run(program, arg) => Reply::Ran((host.run)(program, arg)),
        _ => Reply::Rules(host.listing),
    }
}

/// Where a run stands after `host` answered the waiting request.
pub open spec fn answered(s: Progress, host: Host) -> Progress {
    let after = spec_step(s.cache, s.run, host_reply(host, s.request));
    Progress { cache: after.0, run: after.1, request: after.2 }
}

/// Where a run stands after `host` answered up to `steps` requests.
pub open spec fn after_steps(s: Progress, host: Host, steps: nat) -> Progress
    decreases steps,
{
    if steps == 0 || s.request is Finished {
        s
    } else {
        after_steps(answered(s, host), host, (steps - 1) as nat)
    }
}

/// Whether the waiting request asks to compile the check unit in `dir`.
pub open spec fn compiles_unit(s: Progress, dir: Seq<char>) -> bool {
    s.request is Compile && s.run.next < s.run.rules.len() && check_dir(
        s.run.rules[s.run.next as int],
    ) == dir
}

/// How often the check unit in `dir` is compiled while `host` answers up
/// to `steps` requests.
pub open spec fn compilations(s: Progress, host: Host, dir: Seq<char>, steps: nat) -> nat
    decreases steps,
{
    if steps == 0 || s.request is Finished {
        0
    } else {
        let here: nat = if compiles_unit(s, dir) {
            1
        } else {
            0
        };
        here + compilations(answered(s, host), host, dir, (steps - 1) as nat)
    }
}

/// A run that turns to its next rule.
pub open spec fn turning(cache: Cache, r: RunState) -> Progress {
    Progress { cache, run: advance(cache, r).0, request: advance(cache, r).1 }
}

/// Whether one of the rules from `from` on has its check unit in `dir`.
pub open spec fn has_unit(rules: Seq<Seq<char>>, from: nat, dir: Seq<char>) -> bool {
    exists|j: int| from <= j < rules.len() && check_dir(#[trigger] rules[j]) == dir
}

/// Whether `host` compiles the check unit of every rule of `rules`, and
/// every run it makes ends with a verdict.
pub open spec fn obliging(host: Host, rules: Seq<Seq<char>>) -> bool {
    &&& forall|j: int|
        0 <= j < rules.len() ==> compile_failure(
            unit_source(check_dir(#[trigger] rules[j])),
            (host.build)(unit_source(check_dir(rules[j]))),
        ) is None
    &&& forall|program: Seq<char>, arg: Seq<char>|
        run_failure::<bool>(#[trigger] (host.run)(program, arg)) is None
}

/// From a rule on, an obliging host is asked to compile a check unit
/// once if the cache lacks it and a rule has it, and never otherwise; the
/// run ends, and the cache then holds the check unit of every rule met.
pub proof fn lemma_rest_of_run(cache: Cache, r: RunState, host: Host, dir: Seq<char>, steps: nat)
    requires
        r.next <= r.rules.len(),
        obliging(host, r.rules),
        steps >= 2 * (r.rules.len() - r.next) + 1,
    ensures
        after_steps(turning(cache, r), host, steps).request is Finished,
        forall|key: (Seq<char>, Operation)|
            cache.dom().contains(key) ==> after_steps(
                turning(cache, r),
                host,
                steps,
            ).cache.dom().contains(key),
        forall|j: int|
            r.next <= j < r.rules.len() ==> after_steps(
                turning(cache, r),
                host,
                steps,
            ).cache.dom().contains((check_dir(#[trigger] r.rules[j]), r.operation)),
        compilations(turning(cache, r), host, dir, steps) == if has_unit(r.rules, r.next, dir)
            && !cache.dom().contains((dir, r.operation)) {
            1nat
        } else {
            0nat
        },
    decreases r.rules.len() - r.next,
{
    let s = turning(cache, r);
    if r.next >= r.rules.len() {
        assert(s.request is Finished);
        assert(!has_unit(r.rules, r.next, dir));
    } else {
        let rule = r.rules[r.next as int];
        let here = check_dir(rule);
        let key = (here, r.operation);
        if cache.dom().contains(key) {
            // The unit is called at once.
            assert(s.request is Run);
            let verdict = (host.run)(cache[key], r.operation.spec_name());
            assert(run_failure::<bool>(verdict) is None);
            let triggered = if run_output(verdict) == "true"@ {
                s.run.triggered.push(execute_source(rule))
            } else {
                s.run.triggered
            };
            let next = RunState { next: r.next + 1, triggered, ..s.run };
            assert(answered(s, host) == turning(cache, next));
            lemma_rest_of_run(cache, next, host, dir, (steps - 1) as nat);
            assert(after_steps(s, host, steps) == after_steps(
                turning(cache, next),
                host,
                (steps - 1) as nat,
            ));
            assert(!compiles_unit(s, dir));
            assert(has_unit(r.rules, r.next, dir) && dir != here ==> has_unit(
                next.rules,
                next.next,
                dir,
            )) by {
                if has_unit(r.rules, r.next, dir) && dir != here {
                    let j = choose|j: int|
                        r.next <= j < r.rules.len() && check_dir(#[trigger] r.rules[j]) == dir;
                    assert(next.next <= j);
                }
            }
            assert(has_unit(next.rules, next.next, dir) ==> has_unit(r.rules, r.next, dir)) by {
                if has_unit(next.rules, next.next, dir) {
                    let j = choose|j: int|
                        next.next <= j < next.rules.len() && check_dir(#[trigger] next.rules[j])
                            == dir;
                    assert(r.next <= j);
                }
            }
            assert forall|j: int| r.next <= j < r.rules.len() implies after_steps(
                s,
                host,
                steps,
            ).cache.dom().contains((check_dir(#[trigger] r.rules[j]), r.operation)) by {
                if j == r.next {
                } else {
                    assert(next.next <= j);
                }
            }
            assert forall|k: (Seq<char>, Operation)| cache.dom().contains(k) implies after_steps(
                s,
                host,
                steps,
            ).cache.dom().contains(k) by {}
        } else {
            // The unit is compiled, cached, and then called.
            let source = unit_source(here);
            assert(s.request == RequestView::Compile(source));
            assert(compile_failure(source, (host.build)(source)) is None);
            let artifact = artifact_path(source);
            let cached = cache.insert(key, artifact);
            let built = answered(s, host);
            assert(built.cache == cached);
            assert(built.request == RequestView::Run(artifact, r.operation.spec_name()));
            let verdict = (host.run)(artifact, r.operation.spec_name());
            assert(run_failure::<bool>(verdict) is None);
            let triggered = if run_output(verdict) == "true"@ {
                built.run.triggered.push(execute_source(rule))
            } else {
                built.run.triggered
            };
            let next = RunState { next: r.next + 1, triggered, ..built.run };
            assert(answered(built, host) == turning(cached, next));
            lemma_rest_of_run(cached, next, host, dir, (steps - 2) as nat);
            assert(after_steps(s, host, steps) == after_steps(built, host, (steps - 1) as nat));
            assert(after_steps(built, host, (steps - 1) as nat) == after_steps(
                turning(cached, next),
                host,
                (steps - 2) as nat,
            ));
            assert(compiles_unit(s, dir) == (dir == here));
            assert(!compiles_unit(built, dir));
            assert(compilations(s, host, dir, steps) == (if dir == here {
                1nat
            } else {
                0nat
            }) + compilations(built, host, dir, (steps - 1) as nat));
            assert(compilations(built, host, dir, (steps - 1) as nat) == compilations(
                turning(cached, next),
                host,
                dir,
                (steps - 2) as nat,
            ));
            if dir == here {
                assert(has_unit(r.rules, r.next, dir)) by {
                    assert(check_dir(r.rules[r.next as int]) == dir);
                }
            } else {
                assert(has_unit(r.rules, r.next, dir) ==> has_unit(next.rules, next.next, dir))
                    by {
                    if has_unit(r.rules, r.next, dir) {
                        let j = choose|j: int|
                            r.next <= j < r.rules.len() && check_dir(#[trigger] r.rules[j]) == dir;
                        assert(next.next <= j);
                    }
                }
                assert(has_unit(next.rules, next.next, dir) ==> has_unit(r.rules, r.next, dir))
                    by {
                    if has_unit(next.rules, next.next, dir) {
                        let j = choose|j: int|
                            next.next <= j < next.rules.len() && check_dir(
                                #[trigger] next.rules[j],
                            ) == dir;
                        assert(r.next <= j);
                    }
                }
            }
            assert forall|j: int| r.next <= j < r.rules.len() implies after_steps(
                s,
                host,
                steps,
            ).cache.dom().contains((check_dir(#[trigger] r.rules[j]), r.operation)) by {
                if j == r.next {
                    assert(cached.dom().contains(key));
                } else {
                    assert(next.next <= j);
                }
            }
            assert forall|k: (Seq<char>, Operation)| cache.dom().contains(k) implies after_steps(
                s,
                host,
                steps,
            ).cache.dom().contains(k) by {
                assert(cached.dom().contains(k));
            }
        }
    }
}

/// A run that has asked for its rule directories and waits for them.
pub open spec fn listing_run(cache: Cache, operation: Operation, dir: Seq<char>) -> Progress {
    Progress {
        cache,
        run: RunState {
            operation,
            rules: Seq::empty(),
            next: 0,
            phase: Phase::Listing,
            triggered: Seq::empty(),
        },
        request: RequestView::ListRules(dir),
    }
}

/// Two runs for the same file and operation compile a check unit once.
/// Where the cache lacks the check unit of a rule and the host is
/// obliging, the first run compiles that unit exactly once, and a second
/// run that starts with the cache the first one left compiles it never.
pub proof fn law_two_runs_compile_once(
    cache: Cache,
    operation: Operation,
    dir: Seq<char>,
    host: Host,
    rules: Vec<String>,
    i: int,
    steps: nat,
)
    requires
        host.listing == Some(rules),
        obliging(host, texts(rules@)),
        0 <= i < rules@.len(),
        !cache.dom().contains((check_dir(rules@[i]@), operation)),
        steps >= 2 * rules@.len() + 2,
    ensures
        ({
            let unit = check_dir(rules@[i]@);
            let first = listing_run(cache, operation, dir);
            let left = after_steps(first, host, steps).cache;
            let second = listing_run(left, operation, dir);
            &&& after_steps(first, host, steps).request is Finished
            &&& compilations(first, host, unit, steps) == 1
            &&& after_steps(second, host, steps).request is Finished
            &&& compilations(second, host, unit, steps) == 0
        }),
{
    let unit = check_dir(rules@[i]@);
    let all = texts(rules@);
    assert(all[i] == rules@[i]@);
    let first = listing_run(cache, operation, dir);
    let base = RunState { rules: all, next: 0, ..first.run };
    assert(answered(first, host) == turning(cache, base));
    lemma_rest_of_run(cache, base, host, unit, (steps - 1) as nat);
    assert(has_unit(all, 0, unit)) by {
        assert(check_dir(all[i]) == unit);
    }
    assert(!compiles_unit(first, unit));
    let left = after_steps(first, host, steps).cache;
    assert(left == after_steps(turning(cache, base), host, (steps - 1) as nat).cache);
    assert(left.dom().contains((unit, operation))) by {
        assert(left.dom().contains((check_dir(all[i]), operation)));
    }
    let second = listing_run(left, operation, dir);
    assert(answered(second, host) == turning(left, base));
    lemma_rest_of_run(left, base, host, unit, (steps - 1) as nat);
    assert(!compiles_unit(second, unit));
}

} // verus!
