//! Configuration, command lines and the other small texts the file
//! system adapter works with.

use vstd::prelude::*;

use crate::error::Error;
use crate::forest::{derive_rejected, has_edge, spec_derive, Forest};
use crate::paths::{file_name, join, opt_text, path_file_name, path_join};
use crate::pattern::{capture_group, regex_group, Capture, CaptureView};
use crate::permission::{label_tag_name, opt_view, set_output_label, spec_label_document, TagWrite};
use crate::program::Program;
use crate::table::{spec_record, Table};
use crate::text::{
    parse_i64, replace, spec_parse_i64, spec_replace, spec_split, spec_split_once,
    spec_starts_with, split, split_once, split_words, starts_with, str_eq, strip, stripped,
    texts, to_chars, words, Strip,
};
use crate::toml_value::{parse_document, toml_document, TomlValue};

verus! {

/// The character that separates the arguments of a command line.
pub const NUL: char = '\0';

/// The text of a result.
pub open spec fn result_text(r: Result<String, Error>) -> Result<Seq<char>, Error> {
    match r {
        Ok(s) => Ok(s@),
        Err(e) => Err(e),
    }
}

/// The value that the configuration lines `lines` give the key `name`:
/// that of the last line `name=value`. A line without `=` makes the
/// configuration malformed.
pub open spec fn spec_config(lines: Seq<Seq<char>>, name: Seq<char>) -> Result<Seq<char>, Error>
    decreases lines.len(),
{
    if lines.len() == 0 {
        Err(Error::NotFound)
    } else {
        match spec_split_once(lines.last(), '=') {
            None => Err(Error::InvalidFormat),
            Some((key, value)) => match spec_config(lines.drop_last(), name) {
                Err(Error::InvalidFormat) => Err(Error::InvalidFormat),
                earlier => if key == name {
                    Ok(value)
                } else {
                    earlier
                },
            },
        }
    }
}

/// Looks the key `name` up in the lines of the configuration.
pub fn config(lines: &Vec<String>, name: &str) -> (r: Result<String, Error>)
    ensures
        result_text(r) == spec_config(texts(lines@), name@),
{
    let mut found: Result<String, Error> = Err(Error::NotFound);
    let mut i: usize = 0;
    let ghost all = texts(lines@);
    assert(all.take(0) =~= Seq::<Seq<char>>::empty());
    while i < lines.len()
        invariant
            i <= lines.len(),
            all == texts(lines@),
            result_text(found) == spec_config(all.take(i as int), name@),
            !(found matches Err(Error::InvalidFormat)),
        decreases lines.len() - i,
    {
        proof {
            let next = all.take(i + 1);
            assert(next.drop_last() =~= all.take(i as int));
            assert(next.last() == lines@[i as int]@);
        }
        match split_once(lines[i].as_str(), '=') {
            None => {
                proof {
                    lemma_config_malformed(all, name@, i as int);
                }
                return Err(Error::InvalidFormat);
            },
            Some((key, value)) => {
                if str_eq(key.as_str(), name) {
                    found = Ok(value);
                }
            },
        }
        i = i + 1;
    }
    assert(all.take(lines.len() as int) =~= all);
    found
}

/// A line without `=` makes the whole configuration malformed.
proof fn lemma_config_malformed(lines: Seq<Seq<char>>, name: Seq<char>, i: int)
    requires
        0 <= i < lines.len(),
        spec_split_once(lines[i], '=') is None,
    ensures
        spec_config(lines, name) == Err::<Seq<char>, Error>(Error::InvalidFormat),
    decreases lines.len(),
{
    if i < lines.len() - 1 {
        lemma_config_malformed(lines.drop_last(), name, i);
    }
}

/// A line of the operation log: the prefix, the program and the time,
/// separated by spaces.
pub fn log_line(prefix: &str, program: &str, time: &str) -> (line: String)
    ensures
        line@ == prefix@ + seq![' '] + program@ + seq![' '] + time@ + seq!['\n'],
{
    let mut line = prefix.to_owned();
    line.push(' ');
    line.append(program);
    line.push(' ');
    line.append(time);
    line.push('\n');
    line
}

/// The program and the rest of a command line: the final component of
/// what comes before the first NUL, and what comes after it without the
/// NULs at its ends.
pub open spec fn spec_name_and_file(info: Seq<char>) -> Option<(Seq<char>, Seq<char>)> {
    match spec_split_once(info, NUL) {
        Some((path, rest)) => match path_file_name(path) {
            Some(name) => Some((name, stripped(rest, Strip::Char(NUL)))),
            None => None,
        },
        None => None,
    }
}

/// Splits a command line into the name of the program and its arguments.
pub fn get_name_and_file(info: &str) -> (r: Option<(String, String)>)
    ensures
        match r {
            Some(pair) => spec_name_and_file(info@) == Some((pair.0@, pair.1@)),
            None => spec_name_and_file(info@) is None,
        },
{
    match split_once(info, NUL) {
        Some((path, rest)) => match file_name(path.as_str()) {
            Some(name) => Some((name, strip(rest.as_str(), Strip::Char(NUL)))),
            None => None,
        },
        None => None,
    }
}

/// The name of the log that goes with the file at `path`: a dot and the
/// final component of the path.
pub fn get_temp_name(path: &str) -> (r: Option<String>)
    ensures
        opt_text(r) == match path_file_name(path@) {
            Some(name) => Some(seq!['.'] + name),
            None => None,
        },
{
    match file_name(path) {
        Some(name) => {
            let mut s = String::new();
            s.push('.');
            s.append(name.as_str());
            assert(s@ =~= seq!['.'] + name@);
            Some(s)
        },
        None => None,
    }
}

/// Whether the file name `name` marks a log of a log: its second
/// character is a dot. `None` where the name is empty or starts with a
/// character that is not ASCII.
pub open spec fn second_is_dot(name: Seq<char>) -> Option<bool> {
    if name.len() == 0 || name[0] > '\u{7f}' {
        None
    } else {
        Some(name.len() >= 2 && name[1] == '.')
    }
}

/// Whether the file at `path` is the log of a log.
pub fn file_for_temp(path: &str) -> (r: Option<bool>)
    ensures
        r == match path_file_name(path@) {
            Some(name) => second_is_dot(name),
            None => None,
        },
{
    match file_name(path) {
        Some(name) => {
            let chars = to_chars(name.as_str());
            if chars.len() == 0 || chars[0] > '\u{7f}' {
                None
            } else {
                Some(chars.len() >= 2 && chars[1] == '.')
            }
        },
        None => None,
    }
}

/// The first argument of a command line: what comes before the first
/// NUL, or all of it.
pub open spec fn first_argument(cmdline: Seq<char>) -> Seq<char> {
    match spec_split_once(cmdline, NUL) {
        Some((program, _)) => program,
        None => cmdline,
    }
}

/// The name of the program that the command line `cmdline` runs: the
/// final component of its first argument.
pub fn get_program_name(cmdline: &str) -> (r: Option<String>)
    ensures
        opt_text(r) == path_file_name(first_argument(cmdline@)),
{
    match split_once(cmdline, NUL) {
        Some((program, _)) => file_name(program.as_str()),
        None => file_name(cmdline),
    }
}

/// The arguments of a command line: its pieces between NULs, without
/// the last piece.
pub fn get_cmdline_output(cmdline: &str) -> (r: Vec<String>)
    ensures
        texts(r@) == spec_split(cmdline@, NUL).drop_last(),
{
    let mut pieces = split(cmdline, NUL);
    let ghost all = texts(pieces@);
    if pieces.len() > 0 {
        let _ = pieces.pop();
        assert(texts(pieces@) =~= all.drop_last());
    } else {
        assert(texts(pieces@) =~= all.drop_last());
    }
    pieces
}

/// The program of a command line and the command line with spaces for
/// NULs; `None` where the command line holds no NUL.
pub fn get_cmdline_output_and_name(cmdline: &str) -> (r: Option<(String, String)>)
    ensures
        match r {
            Some(pair) => spec_split_once(cmdline@, NUL) is Some && pair.0@ == first_argument(
                cmdline@,
            ) && pair.1@ == spec_replace(cmdline@, NUL, ' '),
            None => spec_split_once(cmdline@, NUL) is None,
        },
{
    match split_once(cmdline, NUL) {
        Some((program, _)) => Some((program, replace(cmdline, NUL, ' '))),
        None => None,
    }
}

/// The name of the program at the path `program_name`.
pub fn program_name_from_path(program_name: &str) -> (r: Option<String>)
    ensures
        opt_text(r) == path_file_name(program_name@),
{
    file_name(program_name)
}

/// The store and the answer after `path` was recorded as derived from
/// `source`, unless the store had that edge already: the answer says
/// whether the store changed.
pub open spec fn spec_derive_from_source(
    m: Forest,
    path: Seq<char>,
    source: Seq<char>,
    path_tag: Option<Seq<char>>,
    source_tag: Option<Seq<char>>,
) -> (Forest, Result<bool, Error>) {
    if has_edge(m, path, source) {
        (m, Ok(false))
    } else {
        match spec_record(source, source_tag) {
            Ok(from) => match spec_record(path, path_tag) {
                Ok(target) => if derive_rejected(m, path, source) {
                    (m, Err(Error::Cyclic))
                } else {
                    (
                        spec_derive(
                            m,
                            path,
                            target.0,
                            seq![target.1],
                            source,
                            from.0,
                            seq![from.1],
                        ),
                        Ok(true),
                    )
                },
                Err(e) => (m, Err(e)),
            },
            Err(e) => (m, Err(e)),
        }
    }
}

/// Records that `path` was derived from `source`, unless the store has
/// that edge already. Returns whether the store changed and has to be
/// persisted.
pub fn derive_from_source(
    table: &mut Table,
    path: &str,
    source: &str,
    path_tag: Option<&str>,
    source_tag: Option<&str>,
) -> (r: Result<bool, Error>)
    requires
        old(table).wf(),
    ensures
        final(table).wf(),
        (final(table)@, r) == spec_derive_from_source(
            old(table)@,
            path@,
            source@,
            opt_view(path_tag),
            opt_view(source_tag),
        ),
{
    if table.contains_key(path, source) {
        return Ok(false);
    }
    match table.derive(path, source, path_tag, source_tag) {
        Ok(()) => Ok(true),
        Err(e) => Err(e),
    }
}

/// The tag texts of `tags`.
pub open spec fn tag_texts(tags: Seq<Option<String>>) -> Seq<Option<Seq<char>>> {
    Seq::new(tags.len(), |i: int| opt_text(tags[i]))
}

/// The store and the answer after `path` was recorded as derived from the
/// first `n` of `resources`, one after the other, up to the first failure:
/// the answer says whether the store changed.
pub open spec fn spec_derive_data(
    m: Forest,
    path: Seq<char>,
    path_tag: Option<Seq<char>>,
    resources: Seq<Seq<char>>,
    tags: Seq<Option<Seq<char>>>,
    n: nat,
) -> (Forest, Result<bool, Error>)
    decreases n,
{
    if n == 0 {
        (m, Ok(false))
    } else {
        let (before, earlier) = spec_derive_data(
            m,
            path,
            path_tag,
            resources,
            tags,
            (n - 1) as nat,
        );
        match earlier {
            Ok(changed) => {
                let (after, r) = spec_derive_from_source(
                    before,
                    path,
                    resources[n - 1],
                    path_tag,
                    tags[n - 1],
                );
                match r {
                    Ok(c) => (after, Ok(changed || c)),
                    Err(e) => (after, Err(e)),
                }
            },
            Err(e) => (before, Err(e)),
        }
    }
}

/// Records that the file at `entry_path` was derived from every resource
/// that `program` has opened; `tags` holds the label tag of each
/// resource. Returns whether the store changed and has to be persisted.
pub fn derive_data(
    table: &mut Table,
    entry_path: &str,
    entry_tag: Option<&str>,
    program: &Program,
    tags: &Vec<Option<String>>,
) -> (r: Result<bool, Error>)
    requires
        old(table).wf(),
        tags@.len() == program.resources@.len(),
    ensures
        final(table).wf(),
        (final(table)@, r) == spec_derive_data(
            old(table)@,
            entry_path@,
            opt_view(entry_tag),
            texts(program.resources@),
            tag_texts(tags@),
            tags@.len(),
        ),
{
    let mut changed = false;
    let mut i: usize = 0;
    while i < tags.len()
        invariant
            table.wf(),
            i <= tags.len(),
            tags@.len() == program.resources@.len(),
            (table@, Ok::<bool, Error>(changed)) == spec_derive_data(
                old(table)@,
                entry_path@,
                opt_view(entry_tag),
                texts(program.resources@),
                tag_texts(tags@),
                i as nat,
            ),
        decreases tags.len() - i,
    {
        let tag: Option<&str> = match &tags[i] {
            Some(t) => Some(t.as_str()),
            None => None,
        };
        assert(opt_view(tag) == tag_texts(tags@)[i as int]);
        assert(texts(program.resources@)[i as int] == program.resources@[i as int]@);
        match derive_from_source(table, entry_path, program.resources[i].as_str(), entry_tag, tag) {
            Ok(c) => {
                changed = changed || c;
            },
            Err(e) => {
                proof {
                    lemma_derive_data_fails(
                        old(table)@,
                        entry_path@,
                        opt_view(entry_tag),
                        texts(program.resources@),
                        tag_texts(tags@),
                        (i + 1) as nat,
                        tags@.len(),
                    );
                }
                return Err(e);
            },
        }
        i = i + 1;
    }
    Ok(changed)
}

/// After the first failure nothing more is recorded.
proof fn lemma_derive_data_fails(
    m: Forest,
    path: Seq<char>,
    path_tag: Option<Seq<char>>,
    resources: Seq<Seq<char>>,
    tags: Seq<Option<Seq<char>>>,
    i: nat,
    n: nat,
)
    requires
        i <= n,
        spec_derive_data(m, path, path_tag, resources, tags, i).1 is Err,
    ensures
        spec_derive_data(m, path, path_tag, resources, tags, n) == spec_derive_data(
            m,
            path,
            path_tag,
            resources,
            tags,
            i,
        ),
    decreases n - i,
{
    if i < n {
        lemma_derive_data_fails(m, path, path_tag, resources, tags, i, (n - 1) as nat);
    }
}

/// The file that holds the label of a new file: `path` under the base
/// directory, tagged with the integrity of the program that made it.
pub fn set_lattice_of_new_file(base: &str, path: &str, program: &Program) -> (w: TagWrite)
    ensures
        w.file@ == path_join(base@, path@),
        w.name@ == label_tag_name(),
        w.value@ == spec_label_document(program.integrity),
{
    let full = join(base, path);
    set_output_label(full.as_str(), program.integrity)
}

/// The number that the text `s` writes as a `u32`: an optional `+` and
/// digits, in range.
pub open spec fn spec_parse_u32(s: Seq<char>) -> Option<u32> {
    if s.len() > 0 && s[0] == '-' {
        None
    } else {
        match spec_parse_i64(s) {
            Some(n) => if 0 <= n <= u32::MAX {
                Some(n as u32)
            } else {
                None
            },
            None => None,
        }
    }
}

/// Reads a `u32` from text.
pub fn parse_u32(s: &str) -> (r: Option<u32>)
    ensures
        r == spec_parse_u32(s@),
{
    let chars = to_chars(s);
    if chars.len() > 0 && chars[0] == '-' {
        return None;
    }
    match parse_i64(s) {
        Some(n) => if 0 <= n && n <= 4294967295 {
            Some(n as u32)
        } else {
            None
        },
        None => None,
    }
}

/// Whether `i` is the position of the first line of `lines` that starts
/// with `PPid:`.
pub open spec fn is_parent_line(lines: Seq<Seq<char>>, i: int) -> bool {
    &&& 0 <= i < lines.len()
    &&& spec_starts_with(lines[i], "PPid:"@)
    &&& forall|j: int| 0 <= j < i ==> !spec_starts_with(lines[j], "PPid:"@)
}

/// The parent that a process status names: the second word of its first
/// line that starts with `PPid:`, read as a number.
pub open spec fn spec_parent_process(status: Seq<char>) -> Option<u32> {
    let lines = spec_split(status, '\n');
    if exists|i: int| is_parent_line(lines, i) {
        let line = lines[choose|i: int| is_parent_line(lines, i)];
        if words(line).len() >= 2 {
            spec_parse_u32(words(line)[1])
        } else {
            None
        }
    } else {
        None
    }
}

/// The parent of a process, read from the text of its status.
pub fn get_parent_process(status: &str) -> (r: Option<u32>)
    ensures
        r == spec_parent_process(status@),
{
    let lines = split(status, '\n');
    let ghost all = texts(lines@);
    let mut i: usize = 0;
    while i < lines.len()
        invariant
            i <= lines.len(),
            all == texts(lines@),
            all == spec_split(status@, '\n'),
            forall|j: int| 0 <= j < i ==> !spec_starts_with(all[j], "PPid:"@),
        decreases lines.len() - i,
    {
        assert(all[i as int] == lines@[i as int]@);
        if starts_with(lines[i].as_str(), "PPid:") {
            proof {
                assert(is_parent_line(all, i as int));
                let c = choose|c: int| is_parent_line(all, c);
                assert(c == i) by {
                    if c < i {
                        assert(!spec_starts_with(all[c], "PPid:"@));
                    }
                }
            }
            let tokens = split_words(lines[i].as_str());
            if tokens.len() >= 2 {
                assert(texts(tokens@)[1] == tokens@[1]@);
                return parse_u32(tokens[1].as_str());
            } else {
                return None;
            }
        }
        i = i + 1;
    }
    proof {
        assert forall|c: int| !is_parent_line(all, c) by {
            if is_parent_line(all, c) {
                assert(!spec_starts_with(all[c], "PPid:"@));
            }
        }
    }
    None
}

/// The kinds of I/O failure that the adapter tells apart.
#[derive(Debug, Clone, Copy, PartialEq, Eq, Structural)]
pub enum IoKind {
    PermissionDenied,
    NotFound,
    Other,
}

/// Operation not permitted.
pub const EPERM: i32 = 1;

/// No such file or directory.
pub const ENOENT: i32 = 2;

/// Input/output error.
pub const EIO: i32 = 5;

/// The error code that the adapter answers an I/O failure with, and
/// whether the entry is to be forgotten: a missing entry is.
pub fn errhandle(kind: IoKind) -> (r: (i32, bool))
    ensures
        r == match kind {
            IoKind::PermissionDenied => (EPERM, false),
            IoKind::NotFound => (ENOENT, true),
            IoKind::Other => (EIO, false),
        },
{
    match kind {
        IoKind::PermissionDenied => (EPERM, false),
        IoKind::NotFound => (ENOENT, true),
        IoKind::Other => (EIO, false),
    }
}

/// The error code that the adapter answers a failure of the library
/// with: a missing entry is no such entry, a denied access is not
/// permitted, anything else is an I/O failure.
pub fn error_code(e: Error) -> (code: i32)
    ensures
        code == match e {
            Error::NotFound => ENOENT,
            Error::PermissionDenied => EPERM,
            _ => EIO,
        },
{
    match e {
        Error::NotFound => ENOENT,
        Error::PermissionDenied => EPERM,
        _ => EIO,
    }
}


/// What a field of a program descriptor captures from a command line:
/// nothing where the descriptor lacks the field, what the first group of
/// the field's pattern captures where the pattern matches. A field that
/// is no string, a pattern that is no regular expression and a pattern
/// that does not match are malformed.
pub open spec fn spec_field_capture(doc: TomlValue, field: Seq<char>, cmdline: Seq<char>) -> Result<
    Option<Seq<char>>,
    Error,
> {
    match doc.spec_get(field) {
        None => Ok(None),
        Some(v) => match v.spec_as_str() {
            None => Err(Error::InvalidFormat),
            Some(pattern) => match regex_group(pattern, cmdline, 1) {
                CaptureView::Group(g) => Ok(g),
                _ => Err(Error::InvalidFormat),
            },
        },
    }
}

/// What a field of a program descriptor captures from a command line.
pub fn field_capture(doc: &TomlValue, field: &str, cmdline: &str) -> (r: Result<
    Option<String>,
    Error,
>)
    ensures
        match r {
            Ok(g) => spec_field_capture(*doc, field@, cmdline@) == Ok::<Option<Seq<char>>, Error>(
                opt_text(g),
            ),
            Err(e) => spec_field_capture(*doc, field@, cmdline@) == Err::<Option<Seq<char>>, Error>(
                e,
            ),
        },
{
    match doc.get(field) {
        None => Ok(None),
        Some(v) => match v.as_str() {
            None => Err(Error::InvalidFormat),
            Some(pattern) => match capture_group(pattern, cmdline, 1) {
                Capture::Group(g) => Ok(g),
                _ => Err(Error::InvalidFormat),
            },
        },
    }
}

/// The file `name` in the directory `base`.
pub open spec fn under(base: Seq<char>, name: Seq<char>) -> Seq<char> {
    base + seq!['/'] + name
}

/// The file `name` in the directory `base`.
pub fn path_under(base: &str, name: &str) -> (p: String)
    ensures
        p@ == under(base@, name@),
{
    let mut p = base.to_owned();
    p.push('/');
    p.append(name);
    p
}

/// The derivation that the captures of a command line describe: the
/// output derived from the input, both under the base directory, where
/// both were captured.
pub fn planned_derivation(input: Option<String>, output: Option<String>, base: &str) -> (r: Option<
    (String, String),
>)
    ensures
        match r {
            Some(pair) => input is Some && output is Some && pair.0@ == under(
                base@,
                output->0@,
            ) && pair.1@ == under(base@, input->0@),
            None => input is None || output is None,
        },
{
    match output {
        Some(output) => match input {
            Some(input) => Some(
                (path_under(base, output.as_str()), path_under(base, input.as_str())),
            ),
            None => None,
        },
        None => None,
    }
}

/// The derivation that an attested program's descriptor reads off a
/// command line: the patterns under `input` and `output` each capture a
/// name, and the output is derived from the input, both under `base`.
/// Returns the output path and the input path.
pub fn derive_from_toml(toml: &TomlValue, cmdline: &str, base: &str) -> (r: Result<
    Option<(String, String)>,
    Error,
>)
    ensures
        match spec_field_capture(*toml, "input"@, cmdline@) {
            Err(e) => r == Err::<Option<(String, String)>, Error>(e),
            Ok(input) => match spec_field_capture(*toml, "output"@, cmdline@) {
                Err(e) => r == Err::<Option<(String, String)>, Error>(e),
                Ok(output) => match r {
                    Ok(Some(pair)) => input is Some && output is Some && pair.0@ == under(
                        base@,
                        output->0,
                    ) && pair.1@ == under(base@, input->0),
                    Ok(None) => input is None || output is None,
                    Err(_) => false,
                },
            },
        },
{
    let input = field_capture(toml, "input", cmdline)?;
    let output = field_capture(toml, "output", cmdline)?;
    Ok(planned_derivation(input, output, base))
}

/// The derivation that the text of an attested program's descriptor reads
/// off a command line. A text that is no TOML document is malformed.
pub fn derive_from_descriptor(descriptor: &str, cmdline: &str, base: &str) -> (r: Result<
    Option<(String, String)>,
    Error,
>)
    ensures
        match toml_document(descriptor@) {
            None => r == Err::<Option<(String, String)>, Error>(Error::InvalidFormat),
            Some(toml) => match spec_field_capture(toml, "input"@, cmdline@) {
                Err(e) => r == Err::<Option<(String, String)>, Error>(e),
                Ok(input) => match spec_field_capture(toml, "output"@, cmdline@) {
                    Err(e) => r == Err::<Option<(String, String)>, Error>(e),
                    Ok(output) => match r {
                        Ok(Some(pair)) => input is Some && output is Some && pair.0@ == under(
                            base@,
                            output->0,
                        ) && pair.1@ == under(base@, input->0),
                        Ok(None) => input is None || output is None,
                        Err(_) => false,
                    },
                },
            },
        },
{
    match parse_document(descriptor) {
        Some(toml) => derive_from_toml(&toml, cmdline, base),
        None => Err(Error::InvalidFormat),
    }
}

/// Whether `names` holds `name`.
pub fn contains_name(names: &Vec<String>, name: &str) -> (b: bool)
    ensures
        b == texts(names@).contains(name@),
{
    let mut i: usize = 0;
    while i < names.len()
        invariant
            i <= names.len(),
            forall|j: int| 0 <= j < i ==> texts(names@)[j] != name@,
        decreases names.len() - i,
    {
        if str_eq(names[i].as_str(), name) {
            assert(texts(names@)[i as int] == name@);
            return true;
        }
        i = i + 1;
    }
    false
}

/// The descriptor of the attested program that a command line runs: the
/// file named like the program in the directory `exe` under `base`,
/// where the program is among the known ones.
pub open spec fn spec_known_program(
    cmdline: Seq<char>,
    known: Seq<Seq<char>>,
    base: Seq<char>,
) -> Option<Seq<char>> {
    let args = spec_split(cmdline, NUL).drop_last();
    if args.len() == 0 {
        None
    } else {
        match path_file_name(args[0]) {
            Some(name) => if known.contains(name) {
                Some(under(under(base, "exe"@), name))
            } else {
                None
            },
            None => None,
        }
    }
}

/// Where the descriptor of the attested program lies that the command
/// line `cmdline` runs, if it runs one of the known programs.
pub fn check_for_known_program(cmdline: &str, known_programs: &Vec<String>, base: &str) -> (r:
    Option<String>)
    ensures
        opt_text(r) == spec_known_program(cmdline@, texts(known_programs@), base@),
{
    let args = get_cmdline_output(cmdline);
    if args.len() == 0 {
        return None;
    }
    assert(texts(args@)[0] == args@[0]@);
    match program_name_from_path(args[0].as_str()) {
        Some(name) => {
            if contains_name(known_programs, name.as_str()) {
                let dir = path_under(base, "exe");
                Some(path_under(dir.as_str(), name.as_str()))
            } else {
                None
            }
        },
        None => None,
    }
}

} // verus!
