//! The store as an indented tree, for the terminal.

use vstd::prelude::*;

use crate::error::Error;
use crate::paths::{file_name, path_file_name};
use crate::forest::{Entry, Forest};
use crate::record::{
    forest_map, record_entry, spec_from_roots, tree_map, valid_forest, valid_tree, TableEntry,
};
use crate::table::Table;
use crate::text::{parse_i64, spec_parse_i64, spec_split_once, spec_starts_with, split_once, texts};

verus! {

/// The escape character, which starts every style sequence.
pub const ESCAPE: char = '\u{1b}';

/// The sequence that ends a painted text.
pub open spec fn reset() -> Seq<char> {
    seq![ESCAPE, '[', '0', 'm']
}

/// Whether `painted` is `text` as a terminal shows it in some style: the
/// text as it is where colours are off, and the text between a style
/// sequence and the reset sequence where they are on.
pub open spec fn is_painted(text: Seq<char>, painted: Seq<char>) -> bool {
    painted == text || exists|style: Seq<char>| painted == style + text + reset()
}

/// Whether `text` holds the reset sequence somewhere.
pub open spec fn has_reset(text: Seq<char>) -> bool {
    exists|i: int| 0 <= i && i + 4 <= text.len() && #[trigger] text.subrange(i, i + 4) == reset()
}

/// Whether `painted` shows `text`: it is the painted text, unless the text
/// holds the reset sequence itself.
pub open spec fn shows(text: Seq<char>, painted: Seq<char>) -> bool {
    !has_reset(text) ==> is_painted(text, painted)
}

/// A text without an escape character holds no reset sequence.
pub proof fn lemma_plain_text(text: Seq<char>)
    requires
        !text.contains(ESCAPE),
    ensures
        !has_reset(text),
{
    if has_reset(text) {
        let i = choose|i: int|
            0 <= i && i + 4 <= text.len() && #[trigger] text.subrange(i, i + 4) == reset();
        assert(text.subrange(i, i + 4)[0] == text[i]);
        assert(reset()[0] == ESCAPE);
        assert(text.contains(text[i]));
    }
}

/// Calls `colored::Colorize::green` and writes the result out. Whether
/// colours are on depends on the terminal and the environment; either way
/// the result is the text itself, or the text between a style sequence
/// and the reset sequence, for a text that holds no reset sequence.
#[verifier::external_body]
fn green(text: &str) -> (r: String)
    ensures
        shows(text@, r@),
{
    colored::Colorize::green(text).to_string()
}

/// Calls `colored::Colorize::red` and writes the result out: the text
/// itself, or the text between a style sequence and the reset sequence,
/// for a text that holds no reset sequence.
#[verifier::external_body]
fn red(text: &str) -> (r: String)
    ensures
        shows(text@, r@),
{
    colored::Colorize::red(text).to_string()
}

/// Calls `colored::Colorize::yellow` and writes the result out: the text
/// itself, or the text between a style sequence and the reset sequence,
/// for a text that holds no reset sequence.
#[verifier::external_body]
fn yellow(text: &str) -> (r: String)
    ensures
        shows(text@, r@),
{
    colored::Colorize::yellow(text).to_string()
}

/// Calls `colored::Colorize::bright_green` and writes the result out: the
/// text itself, or the text between a style sequence and the reset
/// sequence, for a text that holds no reset sequence.
#[verifier::external_body]
fn bright_green(text: &str) -> (r: String)
    ensures
        shows(text@, r@),
{
    colored::Colorize::bright_green(text).to_string()
}

/// Calls `colored::Colorize::truecolor` and writes the result out: the
/// text itself, or the text between a style sequence and the reset
/// sequence, for a text that holds no reset sequence.
#[verifier::external_body]
fn truecolor(text: &str, r: u8, g: u8, b: u8) -> (painted: String)
    ensures
        shows(text@, painted@),
{
    colored::Colorize::truecolor(text, r, g, b).to_string()
}

/// The caption made of a number and a painted word: the number, then the
/// word in brackets.
pub open spec fn spec_caption(digit: Seq<char>, painted: Seq<char>) -> Seq<char> {
    digit + " ("@ + painted + ")"@
}

/// The caption of a label value: the number, then the painted word in
/// brackets.
pub fn caption(digit: &str, painted: &str) -> (s: String)
    ensures
        s@ == spec_caption(digit@, painted@),
{
    let mut s = digit.to_owned();
    s.append(" (");
    s.append(painted);
    s.append(")");
    s
}

/// The number that the caption of a value of the linear scale starts with.
pub open spec fn label_digit(v: i64) -> Seq<char> {
    if v == 1 {
        "1"@
    } else if v == 2 {
        "2"@
    } else {
        "3"@
    }
}

/// The name of a value of the linear scale: `private` for 1, `sensitive`
/// for 2, `public` for 3.
pub open spec fn label_word(v: i64) -> Seq<char> {
    if v == 1 {
        "private"@
    } else if v == 2 {
        "sensitive"@
    } else {
        "public"@
    }
}

/// Whether `s` is the caption of the value `v`: its number, then its name,
/// painted, in brackets.
pub open spec fn is_caption(v: i64, s: Seq<char>) -> bool {
    exists|word: Seq<char>| is_painted(label_word(v), word) && s == spec_caption(label_digit(v), word)
}

/// The names of the values hold no reset sequence, nor does the marker
/// that stands before the labels of an entry.
proof fn lemma_words_are_plain()
    ensures
        !has_reset("private"@),
        !has_reset("sensitive"@),
        !has_reset("public"@),
        !has_reset("@"@),
{
    reveal_strlit("private");
    reveal_strlit("sensitive");
    reveal_strlit("public");
    reveal_strlit("@");
    assert forall|i: int| 0 <= i < "private"@.len() implies "private"@[i] != ESCAPE by {}
    assert forall|i: int| 0 <= i < "sensitive"@.len() implies "sensitive"@[i] != ESCAPE by {}
    assert forall|i: int| 0 <= i < "public"@.len() implies "public"@[i] != ESCAPE by {}
    assert forall|i: int| 0 <= i < "@"@.len() implies "@"@[i] != ESCAPE by {}
    lemma_plain_text("private"@);
    lemma_plain_text("sensitive"@);
    lemma_plain_text("public"@);
    lemma_plain_text("@"@);
}

/// The caption of a value of the linear scale: `1 (private)`,
/// `2 (sensitive)` or `3 (public)`, the name painted in its colour. Other
/// values have no caption.
pub fn lattice_color(linear_value: i64) -> (r: Option<String>)
    ensures
        r is Some <==> 1 <= linear_value <= 3,
        r matches Some(s) ==> is_caption(linear_value, s@),
{
    proof {
        lemma_words_are_plain();
    }
    if linear_value == 1 {
        let word = red("private");
        let text = caption("1", word.as_str());
        assert(is_painted(label_word(1), word@) && text@ == spec_caption(label_digit(1), word@));
        Some(text)
    } else if linear_value == 2 {
        let word = yellow("sensitive");
        let text = caption("2", word.as_str());
        assert(is_painted(label_word(2), word@) && text@ == spec_caption(label_digit(2), word@));
        Some(text)
    } else if linear_value == 3 {
        let word = bright_green("public");
        let text = caption("3", word.as_str());
        assert(is_painted(label_word(3), word@) && text@ == spec_caption(label_digit(3), word@));
        Some(text)
    } else {
        None
    }
}

/// The value that the label text `label` writes after its first space.
pub open spec fn spec_label_value(label: Seq<char>) -> Option<i64> {
    match spec_split_once(label, ' ') {
        Some((_, num)) => spec_parse_i64(num),
        None => None,
    }
}

/// The value that a label text writes after its first space.
pub fn label_value(label: &str) -> (r: Option<i64>)
    ensures
        r == spec_label_value(label@),
{
    match split_once(label, ' ') {
        Some((_, num)) => parse_i64(num.as_str()),
        None => None,
    }
}

/// Whether the label text `label` has a caption.
pub open spec fn printable_label(label: Seq<char>) -> bool {
    spec_label_value(label) matches Some(v) && 1 <= v <= 3
}

/// Whether the first `n` labels of `labels` have captions.
pub open spec fn printable_labels(labels: Seq<Seq<char>>, n: int) -> bool {
    forall|i: int| 0 <= i < n ==> printable_label(#[trigger] labels[i])
}

/// The first `n` of `parts`, with a comma between each two.
pub open spec fn spec_join(parts: Seq<Seq<char>>, n: nat) -> Seq<char>
    decreases n,
{
    if n == 0 || n > parts.len() {
        Seq::empty()
    } else if n == 1 {
        parts[0]
    } else {
        spec_join(parts, (n - 1) as nat) + seq![','] + parts[n - 1]
    }
}

/// Whether `parts` are the captions of the first `n` labels of `labels`,
/// one for each label and in their order.
pub open spec fn captions_of(labels: Seq<Seq<char>>, parts: Seq<Seq<char>>, n: int) -> bool {
    forall|i: int|
        0 <= i < n ==> spec_label_value(#[trigger] labels[i]) is Some && is_caption(
            spec_label_value(labels[i])->0,
            #[trigger] parts[i],
        )
}

/// Whether `text` holds the captions of `labels`: the caption of each
/// label, in their order, with a comma between each two.
pub open spec fn are_captions(labels: Seq<Seq<char>>, text: Seq<char>) -> bool {
    exists|parts: Seq<Seq<char>>|
        parts.len() == labels.len() && captions_of(labels, parts, labels.len() as int) && text
            == spec_join(parts, parts.len())
}

/// The captions of `labels`, separated by commas; `None` where a label
/// has no caption.
pub fn captions(labels: &Vec<String>) -> (r: Option<String>)
    ensures
        r is Some <==> printable_labels(texts(labels@), labels@.len() as int),
        r matches Some(s) ==> are_captions(texts(labels@), s@),
{
    let mut out = String::new();
    let ghost mut parts: Seq<Seq<char>> = Seq::empty();
    let mut i: usize = 0;
    while i < labels.len()
        invariant
            i <= labels.len(),
            printable_labels(texts(labels@), i as int),
            parts.len() == i,
            captions_of(texts(labels@), parts, i as int),
            out@ == spec_join(parts, i as nat),
        decreases labels.len() - i,
    {
        assert(texts(labels@)[i as int] == labels@[i as int]@);
        let text = match label_value(labels[i].as_str()) {
            Some(v) => match lattice_color(v) {
                Some(text) => text,
                None => {
                    return None;
                },
            },
            None => {
                return None;
            },
        };
        if i > 0 {
            out.push(',');
        }
        out.append(text.as_str());
        proof {
            let before = parts;
            parts = parts.push(text@);
            assert forall|j: int| 0 <= j < i + 1 implies spec_label_value(
                #[trigger] texts(labels@)[j],
            ) is Some && is_caption(spec_label_value(texts(labels@)[j])->0, #[trigger] parts[j]) by {
                if j < i {
                    assert(parts[j] == before[j]);
                }
            }
            lemma_join_prefix(before, parts, i as nat);
            if i == 0 {
                assert(out@ =~= text@);
            }
        }
        i = i + 1;
    }
    proof {
        assert(parts.len() == texts(labels@).len());
    }
    Some(out)
}

/// What the first `n` parts join to depends on those parts only.
proof fn lemma_join_prefix(a: Seq<Seq<char>>, b: Seq<Seq<char>>, n: nat)
    requires
        n <= a.len(),
        n <= b.len(),
        forall|i: int| 0 <= i < n ==> a[i] == b[i],
    ensures
        spec_join(a, n) == spec_join(b, n),
    decreases n,
{
    if n > 1 {
        lemma_join_prefix(a, b, (n - 1) as nat);
    }
}

/// The branch drawn before an entry: a corner for the last child and for
/// the entries of the first level, a tee otherwise.
pub open spec fn spec_branch(level: u64, is_last: bool) -> Seq<char> {
    if is_last || level <= 1 {
        "└──"@
    } else {
        "├──"@
    }
}

/// The blanks before the branch of an entry of the level `level`: four
/// for each level below the first.
pub open spec fn spec_indent(level: u64) -> Seq<char> {
    Seq::new(
        if level <= 1 {
            0nat
        } else {
            ((level - 1) * 4) as nat
        },
        |i: int| ' ',
    )
}

/// The line of one entry: blanks, the branch, the name, the marker, the
/// word `label` and the captions of the labels.
pub open spec fn spec_tree_line(
    level: u64,
    is_last: bool,
    name: Seq<char>,
    marker: Seq<char>,
    labels: Seq<char>,
) -> Seq<char> {
    spec_indent(level) + spec_branch(level, is_last) + seq![' '] + name + seq![' '] + marker
        + "label "@ + labels + seq!['\n']
}

/// The line of one entry: blanks, the branch, the name, the marker and
/// the captions of the labels.
pub fn tree_line(level: u64, is_last: bool, name: &str, marker: &str, labels: &str) -> (line:
    String)
    ensures
        line@ == spec_tree_line(level, is_last, name@, marker@, labels@),
{
    let mut line = String::new();
    let mut l: u64 = 1;
    assert(line@ =~= spec_indent(1));
    while l < level
        invariant
            1 <= l,
            l <= level || l == 1,
            line@ == spec_indent(l),
        decreases level - l,
    {
        let ghost before = line@;
        line.append("    ");
        proof {
            reveal_strlit("    ");
            assert(before + "    "@ =~= spec_indent((l + 1) as u64));
        }
        l = l + 1;
    }
    assert(line@ =~= spec_indent(level));
    if is_last || level <= 1 {
        line.append("└──");
    } else {
        line.append("├──");
    }
    line.push(' ');
    line.append(name);
    line.push(' ');
    line.append(marker);
    line.append("label ");
    line.append(labels);
    line.push('\n');
    line
}

/// Whether the record `e` can be drawn: its name has a final component,
/// its labels have captions, and so for the records nested in it.
pub open spec fn printable_tree(e: TableEntry) -> bool
    decreases e, 0nat,
{
    &&& path_file_name(e.name@) is Some
    &&& printable_labels(texts(e.labels@), e.labels@.len() as int)
    &&& printable_forest(e.children@, e.children@.len())
}

/// Whether the first `n` records of `entries` can be drawn.
pub open spec fn printable_forest(entries: Seq<(String, TableEntry)>, n: nat) -> bool
    decreases entries, n,
{
    if n == 0 || n > entries.len() {
        true
    } else {
        printable_forest(entries, (n - 1) as nat) && printable_tree(entries[n - 1].1)
    }
}

/// Where one of the first `n` records cannot be drawn, neither can all.
proof fn lemma_unprintable(entries: Seq<(String, TableEntry)>, i: nat, n: nat)
    requires
        i <= n <= entries.len(),
        !printable_forest(entries, i),
    ensures
        !printable_forest(entries, n),
    decreases n - i,
{
    if i < n {
        lemma_unprintable(entries, i + 1, n);
    }
}

/// The level below `level`.
pub open spec fn next_level(level: u64) -> u64 {
    if level < u64::MAX {
        (level + 1) as u64
    } else {
        level
    }
}

/// Whether `text` starts with the line of the record `e` at the level
/// `level`, made of the painted parts `name` and `marker` and of the
/// captions `labels`: `name` shows the final component of the name of
/// `e`, `marker` is the painted `@`, `labels` holds the captions of the
/// labels of `e`.
pub open spec fn heads(
    level: u64,
    is_last: bool,
    e: TableEntry,
    text: Seq<char>,
    name: Seq<char>,
    marker: Seq<char>,
    labels: Seq<char>,
) -> bool {
    &&& path_file_name(e.name@) is Some
    &&& shows(path_file_name(e.name@)->0, name)
    &&& is_painted("@"@, marker)
    &&& are_captions(texts(e.labels@), labels)
    &&& spec_starts_with(text, spec_tree_line(level, is_last, name, marker, labels))
}

/// Whether `text` is the drawing of the record `e` at the level `level`:
/// the line of `e`, with the final component of its name painted, the
/// painted marker `@` and the captions of its labels, and after it the
/// drawing of the records nested in `e`, one level deeper.
pub open spec fn draws_tree(level: u64, is_last: bool, e: TableEntry, text: Seq<char>) -> bool
    decreases e, 0nat,
{
    exists|name: Seq<char>, marker: Seq<char>, labels: Seq<char>|
        #[trigger] heads(level, is_last, e, text, name, marker, labels) && draws_forest(
            next_level(level),
            e.children@,
            e.children@.len(),
            text.skip(spec_tree_line(level, is_last, name, marker, labels).len() as int),
        )
}

/// Whether `text` is the drawing of the first `n` records of `entries` at
/// the level `level`, one after the other; the last record of `entries`
/// is drawn as the last.
pub open spec fn draws_forest(
    level: u64,
    entries: Seq<(String, TableEntry)>,
    n: nat,
    text: Seq<char>,
) -> bool
    decreases entries, n,
{
    if n == 0 || n > entries.len() {
        text.len() == 0
    } else {
        exists|k: int|
            0 <= k <= text.len() && draws_forest(level, entries, (n - 1) as nat, text.take(k))
                && draws_tree(level, n == entries.len(), entries[n - 1].1, text.skip(k))
    }
}

/// Draws the record `entry` at the level `level` below what `builder`
/// holds, and the records nested in it one level deeper. A record can be
/// drawn where its name has a final component and its labels have
/// captions, and so for the records nested in it.
pub fn _format(level: u64, builder: String, entry: &TableEntry, is_last: bool) -> (r: Result<
    String,
    Error,
>)
    ensures
        match r {
            Ok(out) => printable_tree(*entry) && spec_starts_with(out@, builder@) && draws_tree(
                level,
                is_last,
                *entry,
                out@.skip(builder@.len() as int),
            ),
            Err(e) => e == Error::InvalidFormat && !printable_tree(*entry),
        },
    decreases entry,
{
    let name = match file_name(entry.name.as_str()) {
        Some(name) => name,
        None => {
            return Err(Error::InvalidFormat);
        },
    };
    let labels = match captions(&entry.labels) {
        Some(labels) => labels,
        None => {
            return Err(Error::InvalidFormat);
        },
    };
    let painted = green(name.as_str());
    let marker = truecolor("@", 253, 141, 28);
    proof {
        lemma_words_are_plain();
    }
    let line = tree_line(level, is_last, painted.as_str(), marker.as_str(), labels.as_str());
    let ghost start = builder@;
    let mut out = builder;
    out.append(line.as_str());
    assert(out@.take(start.len() as int) =~= start);
    let deeper: u64 = if level < u64::MAX {
        level + 1
    } else {
        level
    };
    let ghost kids = entry.children@;
    let ghost mut rest: Seq<char> = Seq::empty();
    assert(out@ =~= start + line@ + rest);
    let len = entry.children.len();
    let mut i: usize = 0;
    while i < len
        invariant
            i <= len,
            len == entry.children.len(),
            kids == entry.children@,
            deeper == next_level(level),
            out@ == start + line@ + rest,
            draws_forest(deeper, kids, i as nat, rest),
            printable_forest(kids, i as nat),
        decreases len - i,
    {
        let ghost before = out@;
        match _format(deeper, out, &entry.children[i].1, i == len - 1) {
            Ok(next) => {
                out = next;
                proof {
                    let drawn = out@.skip(before.len() as int);
                    assert(out@.take(before.len() as int) == before);
                    assert(out@ =~= before + drawn);
                    let longer = rest + drawn;
                    assert(longer.take(rest.len() as int) =~= rest);
                    assert(longer.skip(rest.len() as int) =~= drawn);
                    assert(draws_forest(deeper, kids, (i + 1) as nat, longer));
                    assert(out@ =~= start + line@ + longer);
                    rest = longer;
                }
            },
            Err(e) => {
                proof {
                    lemma_unprintable(kids, (i + 1) as nat, len as nat);
                }
                return Err(e);
            },
        }
        i = i + 1;
    }
    proof {
        let text = out@.skip(start.len() as int);
        assert(text =~= line@ + rest);
        assert(text.take(line@.len() as int) =~= line@);
        assert(text.skip(line@.len() as int) =~= rest);
        assert(out@.take(start.len() as int) =~= start);
        assert(heads(level, is_last, *entry, text, painted@, marker@, labels@));
        assert(draws_forest(
            next_level(level),
            kids,
            kids.len(),
            text.skip(spec_tree_line(level, is_last, painted@, marker@, labels@).len() as int),
        ));
    }
    Ok(out)
}

/// Whether the entry `e` can be drawn: its name has a final component and
/// its labels have captions.
pub open spec fn drawable_entry(e: Entry) -> bool {
    path_file_name(e.name) is Some && printable_labels(e.labels, e.labels.len() as int)
}

/// Whether every entry of the store `m` can be drawn.
pub open spec fn drawable(m: Forest) -> bool {
    forall|k: Seq<char>| m.dom().contains(k) ==> drawable_entry(#[trigger] m[k])
}

/// A well-formed record can be drawn exactly when every entry it holds
/// can be drawn.
proof fn lemma_printable_tree(key: Seq<char>, e: TableEntry, parent: Option<Seq<char>>)
    requires
        valid_tree(key, e, parent),
    ensures
        printable_tree(e) <==> drawable(tree_map(key, e)),
    decreases e, 0nat,
{
    let kids = e.children@;
    lemma_printable_forest(kids, kids.len(), Some(key));
    let below = forest_map(kids, kids.len());
    let whole = tree_map(key, e);
    assert(whole[key] == record_entry(e));
    assert(whole.dom().contains(key));
    if drawable(whole) {
        assert(drawable_entry(whole[key]));
        assert forall|k: Seq<char>| below.dom().contains(k) implies drawable_entry(
            #[trigger] below[k],
        ) by {
            assert(whole.dom().contains(k));
            assert(whole[k] == below[k]);
        }
    }
    if printable_tree(e) {
        assert forall|k: Seq<char>| whole.dom().contains(k) implies drawable_entry(
            #[trigger] whole[k],
        ) by {
            if k != key {
                assert(below.dom().contains(k));
                assert(whole[k] == below[k]);
            }
        }
    }
}

/// Well-formed records can be drawn exactly when every entry they hold
/// can be drawn.
proof fn lemma_printable_forest(
    entries: Seq<(String, TableEntry)>,
    n: nat,
    parent: Option<Seq<char>>,
)
    requires
        n <= entries.len(),
        valid_forest(entries, n, parent),
    ensures
        printable_forest(entries, n) <==> drawable(forest_map(entries, n)),
    decreases entries, n,
{
    if n > 0 {
        let last = entries[n - 1];
        lemma_printable_forest(entries, (n - 1) as nat, parent);
        lemma_printable_tree(last.0@, last.1, parent);
        let before = forest_map(entries, (n - 1) as nat);
        let tree = tree_map(last.0@, last.1);
        let whole = forest_map(entries, n);
        assert(whole == before.union_prefer_right(tree));
        if drawable(whole) {
            assert forall|k: Seq<char>| before.dom().contains(k) implies drawable_entry(
                #[trigger] before[k],
            ) by {
                assert(whole.dom().contains(k));
                assert(!tree.dom().contains(k));
                assert(whole[k] == before[k]);
            }
            assert forall|k: Seq<char>| tree.dom().contains(k) implies drawable_entry(
                #[trigger] tree[k],
            ) by {
                assert(whole.dom().contains(k));
                assert(whole[k] == tree[k]);
            }
        }
        if printable_forest(entries, n) {
            assert forall|k: Seq<char>| whole.dom().contains(k) implies drawable_entry(
                #[trigger] whole[k],
            ) by {
                if tree.dom().contains(k) {
                    assert(whole[k] == tree[k]);
                } else {
                    assert(before.dom().contains(k));
                    assert(whole[k] == before[k]);
                }
            }
        }
    }
}

/// Whether `text` is the drawing of the store `m`: the drawing, at the
/// first level, of the records of its roots, each with what was derived
/// from it nested inside.
pub open spec fn draws_store(m: Forest, text: Seq<char>) -> bool {
    exists|roots: Seq<(String, TableEntry)>|
        spec_from_roots(roots) == Some(m) && #[trigger] draws_forest(1, roots, roots.len(), text)
}

impl Table {
    /// The store as a tree: the heading `DATASETS:`, then every root with
    /// what was derived from it indented below, a line for each entry.
    /// Fails where an entry cannot be drawn: where its name has no final
    /// component, or one of its labels has no caption.
    pub fn render(&self) -> (r: Result<String, Error>)
        requires
            self.wf(),
        ensures
            match r {
                Ok(out) => drawable(self@) && spec_starts_with(out@, "DATASETS:\n"@)
                    && draws_store(self@, out@.skip("DATASETS:\n"@.len() as int)),
                Err(e) => e == Error::InvalidFormat && !drawable(self@),
            },
    {
        let roots = self.roots();
        proof {
            assert(spec_from_roots(roots@) == Some(self@));
            lemma_printable_forest(roots@, roots@.len(), None);
        }
        let mut out = "DATASETS:\n".to_owned();
        let ghost start = out@;
        let ghost mut rest: Seq<char> = Seq::empty();
        assert(out@ =~= start + rest);
        let len = roots.len();
        let mut i: usize = 0;
        while i < len
            invariant
                i <= len,
                len == roots.len(),
                out@ == start + rest,
                draws_forest(1, roots@, i as nat, rest),
                printable_forest(roots@, i as nat),
                printable_forest(roots@, len as nat) <==> drawable(self@),
            decreases len - i,
        {
            let ghost before = out@;
            match _format(1, out, &roots[i].1, i == len - 1) {
                Ok(next) => {
                    out = next;
                    proof {
                        let drawn = out@.skip(before.len() as int);
                        assert(out@.take(before.len() as int) == before);
                        assert(out@ =~= before + drawn);
                        let longer = rest + drawn;
                        assert(longer.take(rest.len() as int) =~= rest);
                        assert(longer.skip(rest.len() as int) =~= drawn);
                        assert(draws_forest(1, roots@, (i + 1) as nat, longer));
                        assert(out@ =~= start + longer);
                        rest = longer;
                    }
                },
                Err(e) => {
                    proof {
                        lemma_unprintable(roots@, (i + 1) as nat, len as nat);
                    }
                    return Err(e);
                },
            }
            i = i + 1;
        }
        proof {
            assert(out@.take(start.len() as int) =~= start);
            assert(out@.skip(start.len() as int) =~= rest);
        }
        Ok(out)
    }
}

} // verus!
