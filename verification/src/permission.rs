//! Labels as they are stored on datasets and programs, and the rule that
//! decides whether a subject may read an object.

use vstd::prelude::*;

use crate::error::Error;
use crate::lattice::{
    compare_values, create_lattice, Lattice, LatticePair, LatticeType, LatticeValue,
    LinearLattice, Order,
};
use crate::text::str_eq;
use crate::toml_value::{parse_document, toml_document, TomlValue};

verus! {

/// The error code for an access that the lattice denies.
pub const PERMISSION_DENIED: i32 = 13;

/// The error code for a label that cannot be used.
pub const IO_ERROR: i32 = 5;

/// The extended attribute that holds the label tag of a dataset.
pub open spec fn label_tag_name() -> Seq<char> {
    "user.label"@
}

/// What a subject asks to do with an object.
#[derive(Debug, Clone, Copy, PartialEq, Eq, Structural)]
pub enum RequestType {
    READ,
}

/// The clearance that a label source answers with.
#[derive(Debug, Clone, Copy, PartialEq, Eq)]
pub enum LabelResponse {
    /// An ordinary label.
    Confidentiality(LatticePair),
    /// The fixed dual label of an attested program.
    Gate { integrity: LatticePair, confidentiality: LatticePair },
}

/// The label that the table `v` writes: a `name` that is `"linear"` and a
/// `value` that is an integer. `None` for any other shape.
pub open spec fn spec_label_pair(v: TomlValue) -> Option<LatticePair> {
    match v.spec_get("name"@) {
        Some(n) => match n.spec_as_str() {
            Some(s) => if s == "linear"@ {
                match v.spec_get("value"@) {
                    Some(val) => match val.spec_as_integer() {
                        Some(i) => Some((LatticeType::LinearNumber, LatticeValue::Number(i))),
                        None => None,
                    },
                    None => None,
                }
            } else {
                None
            },
            None => None,
        },
        None => None,
    }
}

/// The label under `key` of the table `v`, where there is a well-formed one.
pub open spec fn spec_label_at(v: TomlValue, key: Seq<char>) -> Option<LatticePair> {
    match v.spec_get(key) {
        Some(l) => spec_label_pair(l),
        None => None,
    }
}

/// The clearance that a program descriptor grants: the dual label of its
/// `gate` table where it has one, its `confidentiality` label otherwise.
pub open spec fn spec_toml_label(doc: TomlValue) -> Result<LabelResponse, Error> {
    match doc.spec_get("gate"@) {
        Some(gate) => match (
            spec_label_at(gate, "confidentiality"@),
            spec_label_at(gate, "integrity"@),
        ) {
            (Some(confidentiality), Some(integrity)) => Ok(
                LabelResponse::Gate { integrity, confidentiality },
            ),
            _ => Err(Error::InvalidFormat),
        },
        None => match spec_label_at(doc, "confidentiality"@) {
            Some(pair) => Ok(LabelResponse::Confidentiality(pair)),
            None => Err(Error::InvalidFormat),
        },
    }
}

/// The label that a dataset's tag document gives it: the default where the
/// document has no `labels`, the label written there where it is
/// well-formed.
pub open spec fn spec_document_label(doc: TomlValue) -> Result<LatticePair, Error> {
    match doc.spec_get("labels"@) {
        Some(l) => match spec_label_pair(l) {
            Some(pair) => Ok(pair),
            None => Err(Error::InvalidFormat),
        },
        None => Ok((LatticeType::LinearNumber, LatticeValue::Number(3))),
    }
}

/// The label of a dataset given what was read of its tag: the default
/// where there is no tag or the tag is no TOML document.
pub open spec fn spec_tag_label(tag: Option<Seq<char>>) -> Result<LatticePair, Error> {
    match tag {
        Some(text) => match toml_document(text) {
            Some(doc) => spec_document_label(doc),
            None => Ok((LatticeType::LinearNumber, LatticeValue::Number(3))),
        },
        None => Ok((LatticeType::LinearNumber, LatticeValue::Number(3))),
    }
}

/// The characters of an optional string slice.
pub open spec fn opt_view(s: Option<&str>) -> Option<Seq<char>> {
    match s {
        Some(s) => Some(s@),
        None => None,
    }
}

/// Reads a label table.
pub fn label_pair(v: &TomlValue) -> (r: Option<LatticePair>)
    ensures
        r == spec_label_pair(*v),
{
    let name = match v.get("name") {
        Some(n) => match n.as_str() {
            Some(s) => s,
            None => {
                return None;
            },
        },
        None => {
            return None;
        },
    };
    if !str_eq(name, "linear") {
        return None;
    }
    match v.get("value") {
        Some(val) => match val.as_integer() {
            Some(i) => Some((LatticeType::LinearNumber, LatticeValue::Number(i))),
            None => None,
        },
        None => None,
    }
}

/// Reads the label under `key` of a table.
fn label_at(v: &TomlValue, key: &str) -> (r: Option<LatticePair>)
    ensures
        r == spec_label_at(*v, key@),
{
    match v.get(key) {
        Some(l) => label_pair(l),
        None => None,
    }
}

/// The clearance that a program descriptor grants: either its gate label
/// or its confidentiality label.
pub fn get_toml_label(toml: &TomlValue) -> (r: Result<LabelResponse, Error>)
    ensures
        r == spec_toml_label(*toml),
{
    match toml.get("gate") {
        Some(gate) => {
            let confidentiality = label_at(gate, "confidentiality");
            let integrity = label_at(gate, "integrity");
            match (confidentiality, integrity) {
                (Some(confidentiality), Some(integrity)) => Ok(
                    LabelResponse::Gate { integrity, confidentiality },
                ),
                _ => Err(Error::InvalidFormat),
            }
        },
        None => match label_at(toml, "confidentiality") {
            Some(pair) => Ok(LabelResponse::Confidentiality(pair)),
            None => Err(Error::InvalidFormat),
        },
    }
}

/// The clearance that the text of a program descriptor grants. A text
/// that is no TOML document is malformed.
pub fn descriptor_label(text: &str) -> (r: Result<LabelResponse, Error>)
    ensures
        r == match toml_document(text@) {
            Some(doc) => spec_toml_label(doc),
            None => Err(Error::InvalidFormat),
        },
{
    match parse_document(text) {
        Some(doc) => get_toml_label(&doc),
        None => Err(Error::InvalidFormat),
    }
}

/// The clearance that the text of a user's clearance file grants: the
/// label under `clearance`. A text that is no TOML document, or that
/// holds no well-formed label there, is malformed.
pub open spec fn spec_lattice(text: Seq<char>) -> Result<LatticePair, Error> {
    match toml_document(text) {
        Some(doc) => match spec_label_at(doc, "clearance"@) {
            Some(pair) => Ok(pair),
            None => Err(Error::InvalidFormat),
        },
        None => Err(Error::InvalidFormat),
    }
}

/// The clearance of the user, read from the text of the clearance file:
/// the type of the label, its comparison engine and its value.
pub fn get_lattice(text: &str) -> (r: Result<(LatticeType, LinearLattice, LatticeValue), Error>)
    ensures
        match r {
            Ok(found) => spec_lattice(text@) == Ok::<LatticePair, Error>((found.0, found.2))
                && found.1.domain() == found.0,
            Err(e) => spec_lattice(text@) == Err::<LatticePair, Error>(e),
        },
{
    match parse_document(text) {
        Some(doc) => match label_at(&doc, "clearance") {
            Some((ltype, lvalue)) => {
                let lattice = create_lattice(&ltype);
                Ok((ltype, lattice, lvalue))
            },
            None => Err(Error::InvalidFormat),
        },
        None => Err(Error::InvalidFormat),
    }
}

/// The label that a dataset's tag document gives it.
pub fn document_label(doc: &TomlValue) -> (r: Result<LatticePair, Error>)
    ensures
        r == spec_document_label(*doc),
{
    match doc.get("labels") {
        Some(l) => match label_pair(l) {
            Some(pair) => Ok(pair),
            None => Err(Error::InvalidFormat),
        },
        None => Ok((LatticeType::LinearNumber, LatticeValue::Number(3))),
    }
}

/// The label of a dataset, given what was read of its tag.
pub fn tag_label(tag: Option<&str>) -> (r: Result<LatticePair, Error>)
    ensures
        r == spec_tag_label(opt_view(tag)),
{
    match tag {
        Some(text) => match parse_document(text) {
            Some(doc) => document_label(&doc),
            None => Ok((LatticeType::LinearNumber, LatticeValue::Number(3))),
        },
        None => Ok((LatticeType::LinearNumber, LatticeValue::Number(3))),
    }
}

/// The label value of a file, given what was read of its tag.
pub fn get_file_lvalue(tag: Option<&str>, ltype: &LatticeType) -> (r: Result<LatticeValue, i32>)
    ensures
        r == match spec_tag_label(opt_view(tag)) {
            Ok(pair) => Ok::<LatticeValue, i32>(pair.1),
            Err(_) => Err::<LatticeValue, i32>(IO_ERROR),
        },
{
    match tag_label(tag) {
        Ok(pair) => Ok(pair.1),
        Err(_) => Err(IO_ERROR),
    }
}

/// The text that a provenance entry keeps of a label: the name of the
/// type, a space and the value.
pub open spec fn spec_label_text(pair: LatticePair) -> Seq<char> {
    pair.0.spec_name() + seq![' '] + pair.1.spec_text()
}

/// The text that a provenance entry keeps of a label.
pub fn label_text(pair: &LatticePair) -> (s: String)
    ensures
        s@ == spec_label_text(*pair),
{
    let mut s = pair.0.to_string();
    s.push(' ');
    let value = pair.1.to_string();
    s.append(value.as_str());
    s
}

/// The TOML document that tags a dataset with a label.
pub open spec fn spec_label_document(pair: LatticePair) -> Seq<char> {
    "labels = {name=\""@ + pair.0.spec_name() + "\",value="@ + pair.1.spec_text() + "}"@
}

/// A request to write an extended attribute of a file.
#[derive(Debug, Clone, PartialEq, Eq)]
pub struct TagWrite {
    /// The file to tag.
    pub file: String,
    /// The name of the attribute.
    pub name: String,
    /// The content of the attribute.
    pub value: String,
}

/// The request that tags `file` with the label document `labels`.
pub fn set_policy(file: &str, labels: String) -> (w: TagWrite)
    ensures
        w.file@ == file@,
        w.name@ == label_tag_name(),
        w.value == labels,
{
    TagWrite { file: file.to_owned(), name: "user.label".to_owned(), value: labels }
}

/// The request that tags the new dataset `new_dataset` with the label
/// `pair`.
pub fn set_output_label(new_dataset: &str, pair: LatticePair) -> (w: TagWrite)
    ensures
        w.file@ == new_dataset@,
        w.name@ == label_tag_name(),
        w.value@ == spec_label_document(pair),
{
    let mut content = "labels = {name=\"".to_owned();
    let name = pair.0.to_string();
    content.append(name.as_str());
    content.append("\",value=");
    let value = pair.1.to_string();
    content.append(value.as_str());
    content.append("}");
    set_policy(new_dataset, content)
}

/// Whether a subject with the clearance `subject` may read an object
/// labelled `object`: it may unless its clearance compares greater.
pub open spec fn access_allowed(subject: LatticeValue, object: LatticeValue) -> bool {
    compare_values(subject, object) != Order::Greater
}

/// On the linear scale a subject may read an object exactly when its
/// clearance is numerically at most the label of the object: lower values
/// are the more restrictive ones.
pub proof fn law_access_rule(subject: i64, object: i64)
    ensures
        access_allowed(LatticeValue::Number(subject), LatticeValue::Number(object)) <==> subject
            <= object,
        spec_decide_access(LatticeValue::Number(subject), LatticeValue::Number(object)) is Ok
            <==> compare_values(LatticeValue::Number(subject), LatticeValue::Number(object))
            != Order::Greater,
{
}

/// The access decision as the file system reports it.
pub open spec fn spec_decide_access(subject: LatticeValue, object: LatticeValue) -> Result<
    i32,
    i32,
> {
    if access_allowed(subject, object) {
        Ok(0)
    } else {
        Err(PERMISSION_DENIED)
    }
}

/// Decides whether a subject with the clearance `subject` may read an
/// object labelled `object`: it may unless its clearance compares
/// greater.
pub fn permit(subject: &LatticePair, object: &LatticeValue) -> (r: Result<(), Error>)
    requires
        subject.1.ltype() == subject.0,
        object.ltype() == subject.0,
    ensures
        r == if access_allowed(subject.1, *object) {
            Ok::<(), Error>(())
        } else {
            Err::<(), Error>(Error::PermissionDenied)
        },
{
    let lattice = create_lattice(&subject.0);
    match lattice.compare(&subject.1, object) {
        Order::Less | Order::Equal => Ok(()),
        Order::Greater => Err(Error::PermissionDenied),
    }
}

/// The access decision as the file system reports it: zero where the
/// subject may read the object, the code for a denied access otherwise.
pub fn decide_access(subject: &LatticePair, object: &LatticeValue) -> (r: Result<i32, i32>)
    requires
        subject.1.ltype() == subject.0,
        object.ltype() == subject.0,
    ensures
        r == spec_decide_access(subject.1, *object),
        r is Ok <==> compare_values(subject.1, *object) != Order::Greater,
{
    match permit(subject, object) {
        Ok(()) => Ok(0),
        Err(_) => Err(PERMISSION_DENIED),
    }
}

/// Checks whether a subject whose confidentiality clearance is
/// `program_label` may open a file, given what was read of the file's tag.
pub fn check_permission(
    program_label: &LatticePair,
    file_tag: Option<&str>,
    _request_type: RequestType,
) -> (r: Result<i32, i32>)
    ensures
        r == match spec_tag_label(opt_view(file_tag)) {
            Ok(label) => spec_decide_access(program_label.1, label.1),
            Err(_) => Err::<i32, i32>(IO_ERROR),
        },
{
    let file_label = get_file_lvalue(file_tag, &program_label.0)?;
    decide_access(program_label, &file_label)
}

} // verus!
