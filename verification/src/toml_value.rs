//! TOML documents as plain values.

use vstd::prelude::*;

use crate::text::str_eq;

verus! {

/// A value of a TOML document. Floats and datetimes keep their kind only.
#[derive(Debug)]
pub enum TomlValue {
    /// A string.
    Text(String),
    /// An integer.
    Integer(i64),
    /// A float; its value is not kept.
    Float,
    /// A boolean.
    Boolean(bool),
    /// A datetime; its value is not kept.
    Datetime,
    /// An array: its values in order.
    Array(Vec<TomlValue>),
    /// A table: its keys with their values, no key twice.
    Table(Vec<(String, TomlValue)>),
}

/// `toml::Value`, which the parser hands back; nothing is said of what is
/// inside one.
#[verifier::external_type_specification]
#[verifier::external_body]
pub struct ExValue(toml::Value);

/// The table that the TOML document `text` holds, as `toml::from_str`
/// reads it; `None` where `text` is no TOML document.
pub uninterp spec fn toml_document(text: Seq<char>) -> Option<TomlValue>;

/// What the parsed value `v` holds, as plain values.
pub uninterp spec fn toml_contents(v: toml::Value) -> TomlValue;

/// Hands out what a `toml::Value` holds: moves it into a `TomlValue`,
/// variant by variant and all the way down, with `toml::map::Map::iter`
/// for the entries of a table. The contract only gives the result its
/// name.
#[verifier::external_body]
fn import_value(v: &toml::Value) -> (r: TomlValue)
    ensures
        r == toml_contents(*v),
{
    match v {
        toml::Value::String(s) => TomlValue::Text(s.clone()),
        toml::Value::Integer(i) => TomlValue::Integer(*i),
        toml::Value::Float(_) => TomlValue::Float,
        toml::Value::Boolean(b) => TomlValue::Boolean(*b),
        toml::Value::Datetime(_) => TomlValue::Datetime,
        toml::Value::Array(a) => TomlValue::Array(a.iter().map(import_value).collect()),
        toml::Value::Table(t) => TomlValue::Table(
            t.iter().map(|(k, v)| (k.clone(), import_value(v))).collect(),
        ),
    }
}

/// Calls `toml::from_str` to read `text` as a TOML document. The result is
/// the table of the document, `None` where the parser reports an error;
/// the contract only gives what that table holds its name.
#[verifier::external_body]
fn read_document(text: &str) -> (r: Option<toml::Value>)
    ensures
        match r {
            Some(v) => toml_document(text@) == Some(toml_contents(v)),
            None => toml_document(text@) is None,
        },
{
    toml::from_str::<toml::Value>(text).ok()
}

/// Reads `text` as a TOML document.
pub(crate) fn parse_document(text: &str) -> (doc: Option<TomlValue>)
    ensures
        doc == toml_document(text@),
{
    match read_document(text) {
        Some(v) => Some(import_value(&v)),
        None => None,
    }
}

/// Whether `i` is the position of the first entry of `entries` with the
/// key `key`.
pub open spec fn is_first(entries: Seq<(String, TomlValue)>, key: Seq<char>, i: int) -> bool {
    &&& 0 <= i < entries.len()
    &&& entries[i].0@ == key
    &&& forall|j: int| 0 <= j < i ==> (#[trigger] entries[j]).0@ != key
}

/// The position of the first entry of `entries` with the key `key`.
pub open spec fn key_position(entries: Seq<(String, TomlValue)>, key: Seq<char>) -> Option<int> {
    if exists|i: int| is_first(entries, key, i) {
        Some(choose|i: int| is_first(entries, key, i))
    } else {
        None
    }
}

impl TomlValue {
    /// The value under `key`, where this value is a table that has the key.
    pub open spec fn spec_get(&self, key: Seq<char>) -> Option<TomlValue> {
        match self {
            TomlValue::Table(entries) => match key_position(entries@, key) {
                Some(i) => Some(entries@[i].1),
                None => None,
            },
            _ => None,
        }
    }

    /// The text of this value, where it is a string.
    pub open spec fn spec_as_str(&self) -> Option<Seq<char>> {
        match self {
            TomlValue::Text(s) => Some(s@),
            _ => None,
        }
    }

    /// The number of this value, where it is an integer.
    pub open spec fn spec_as_integer(&self) -> Option<i64> {
        match self {
            TomlValue::Integer(i) => Some(*i),
            _ => None,
        }
    }

    /// Looks `key` up in a table.
    pub fn get(&self, key: &str) -> (r: Option<&TomlValue>)
        ensures
            match r {
                Some(v) => self.spec_get(key@) == Some(*v),
                None => self.spec_get(key@) is None,
            },
    {
        match self {
            TomlValue::Table(entries) => {
                let mut i: usize = 0;
                while i < entries.len()
                    invariant
                        *self == TomlValue::Table(*entries),
                        i <= entries.len(),
                        forall|j: int| 0 <= j < i ==> (#[trigger] entries@[j]).0@ != key@,
                    decreases entries.len() - i,
                {
                    if str_eq(entries[i].0.as_str(), key) {
                        proof {
                            assert(is_first(entries@, key@, i as int));
                            let c = choose|c: int| is_first(entries@, key@, c);
                            assert(c == i) by {
                                if c < i {
                                    assert(entries@[c].0@ != key@);
                                }
                                if i < c {
                                    assert(entries@[i as int].0@ != key@);
                                }
                            }

                        }
                        return Some(&entries[i].1);
                    }
                    i = i + 1;
                }
                proof {
                    assert forall|c: int| !is_first(entries@, key@, c) by {
                        if is_first(entries@, key@, c) {
                            assert(entries@[c].0@ != key@);
                        }
                    }
                }
                None
            },
            _ => None,
        }
    }

    /// The text of a string value.
    pub fn as_str(&self) -> (r: Option<&str>)
        ensures
            match r {
                Some(s) => self.spec_as_str() == Some(s@),
                None => self.spec_as_str() is None,
            },
    {
        match self {
            TomlValue::Text(s) => Some(s.as_str()),
            _ => None,
        }
    }

    /// The number of an integer value.
    pub fn as_integer(&self) -> (r: Option<i64>)
        ensures
            r == self.spec_as_integer(),
    {
        match self {
            TomlValue::Integer(i) => Some(*i),
            _ => None,
        }
    }
}

} // verus!
