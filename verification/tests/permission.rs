use lh_mount::error::Error;
use lh_mount::lattice::{LatticeType, LatticeValue};
use lh_mount::permission::{
    check_permission, decide_access, descriptor_label, get_file_lvalue, get_lattice, label_text,
    permit,
    set_output_label, set_policy, tag_label, LabelResponse, RequestType, IO_ERROR,
    PERMISSION_DENIED,
};
use lh_mount::program::Program;

fn linear(v: i64) -> (LatticeType, LatticeValue) {
    (LatticeType::LinearNumber, LatticeValue::Number(v))
}

#[test]
fn access_is_allowed_unless_the_clearance_compares_greater() {
    let two = LatticeValue::Number(2);
    assert_eq!(decide_access(&linear(1), &two), Ok(0));
    assert_eq!(decide_access(&linear(2), &two), Ok(0));
    assert_eq!(decide_access(&linear(3), &two), Err(PERMISSION_DENIED));
    assert_eq!(PERMISSION_DENIED, 13);
    assert_eq!(permit(&linear(1), &two), Ok(()));
    assert_eq!(permit(&linear(2), &two), Ok(()));
    assert_eq!(permit(&linear(3), &two), Err(Error::PermissionDenied));
}

#[test]
fn check_permission_reads_the_label_of_the_file() {
    let tag = "labels = {name=\"linear\",value=2}";
    assert_eq!(check_permission(&linear(1), Some(tag), RequestType::READ), Ok(0));
    assert_eq!(check_permission(&linear(2), Some(tag), RequestType::READ), Ok(0));
    assert_eq!(check_permission(&linear(3), Some(tag), RequestType::READ), Err(13));
    // No tag: the default label 3.
    assert_eq!(check_permission(&linear(3), None, RequestType::READ), Ok(0));
    assert_eq!(check_permission(&linear(4), None, RequestType::READ), Err(13));
    // A tag of unexpected shape.
    assert_eq!(check_permission(&linear(1), Some("labels = 1"), RequestType::READ), Err(IO_ERROR));
}

#[test]
fn file_labels_fall_back_to_the_default() {
    let t = LatticeType::LinearNumber;
    assert_eq!(get_file_lvalue(None, &t), Ok(LatticeValue::Number(3)));
    assert_eq!(get_file_lvalue(Some("= not toml"), &t), Ok(LatticeValue::Number(3)));
    assert_eq!(get_file_lvalue(Some("other = 1"), &t), Ok(LatticeValue::Number(3)));
    assert_eq!(
        get_file_lvalue(Some("labels = {name=\"linear\",value=-4}"), &t),
        Ok(LatticeValue::Number(-4))
    );
    assert_eq!(get_file_lvalue(Some("labels = []"), &t), Err(5));
}

#[test]
fn program_descriptors_grant_gate_or_confidentiality() {
    let gate = "[gate]\nconfidentiality = {name=\"linear\",value=1}\nintegrity = {name=\"linear\",value=2}\n";
    assert_eq!(
        descriptor_label(gate),
        Ok(LabelResponse::Gate { integrity: linear(2), confidentiality: linear(1) })
    );
    let plain = "confidentiality = {name=\"linear\",value=2}";
    assert_eq!(descriptor_label(plain), Ok(LabelResponse::Confidentiality(linear(2))));
    assert_eq!(descriptor_label(""), Err(Error::InvalidFormat));
    assert_eq!(descriptor_label("gate = {}"), Err(Error::InvalidFormat));
    assert_eq!(
        descriptor_label("[gate]\nconfidentiality = {name=\"linear\",value=1}"),
        Err(Error::InvalidFormat)
    );
    assert_eq!(
        descriptor_label("confidentiality = {name=\"cube\",value=1}"),
        Err(Error::InvalidFormat)
    );
    assert_eq!(descriptor_label("]]"), Err(Error::InvalidFormat));
}

#[test]
fn the_clearance_of_the_user_is_read_from_its_file() {
    let (ltype, _lattice, value) =
        get_lattice("clearance = {name=\"linear\",value=2}").unwrap();
    assert_eq!((ltype, value), linear(2));
    assert!(matches!(get_lattice(""), Err(Error::InvalidFormat)));
    assert!(matches!(get_lattice("clearance = 2"), Err(Error::InvalidFormat)));
    assert!(matches!(get_lattice("clearance = {name=\"box\",value=2}"), Err(Error::InvalidFormat)));
    assert!(matches!(get_lattice("[["), Err(Error::InvalidFormat)));
}

#[test]
fn the_written_label_reads_back() {
    let w = set_output_label("/tmp/dropbox_folder/out", linear(2));
    assert_eq!(w.file, "/tmp/dropbox_folder/out");
    assert_eq!(w.name, "user.label");
    assert_eq!(w.value, "labels = {name=\"linear\",value=2}");
    assert_eq!(tag_label(Some(&w.value)), Ok(linear(2)));
    let w = set_output_label("x", linear(-12));
    assert_eq!(tag_label(Some(&w.value)), Ok(linear(-12)));
    let p = set_policy("f", "anything".to_string());
    assert_eq!((p.file.as_str(), p.name.as_str(), p.value.as_str()), ("f", "user.label", "anything"));
    assert_eq!(label_text(&linear(3)), "linear 3");
}

#[test]
fn a_new_subject_takes_its_labels_from_the_response() {
    let p = Program::new("tool".to_string(), LabelResponse::Confidentiality(linear(2)));
    assert_eq!(p.integrity, linear(3));
    assert_eq!(p.confidentiality, linear(2));
    assert!(!p.gate);
    assert!(p.resources.is_empty());
    let g = Program::new(
        "gate".to_string(),
        LabelResponse::Gate { integrity: linear(1), confidentiality: linear(2) },
    );
    assert_eq!((g.integrity, g.confidentiality, g.gate), (linear(1), linear(2), true));
}

#[test]
fn reading_taints_downward_only() {
    let mut p = Program::new("tool".to_string(), LabelResponse::Confidentiality(linear(3)));
    p.open("a".to_string(), Some(LabelResponse::Confidentiality(linear(2))));
    assert_eq!(p.integrity, linear(2));
    p.open("b".to_string(), Some(LabelResponse::Confidentiality(linear(3))));
    assert_eq!(p.integrity, linear(2));
    p.open("c".to_string(), Some(LabelResponse::Confidentiality(linear(2))));
    assert_eq!(p.integrity, linear(2));
    p.open("d".to_string(), None);
    assert_eq!(p.integrity, linear(2));
    assert_eq!(p.confidentiality, linear(3));
    assert_eq!(p.resources, vec!["a", "b", "c", "d"]);
}

#[test]
fn a_gate_fixes_the_labels_for_good() {
    let mut p = Program::new("tool".to_string(), LabelResponse::Confidentiality(linear(3)));
    p.open(
        "g".to_string(),
        Some(LabelResponse::Gate { integrity: linear(3), confidentiality: linear(1) }),
    );
    assert!(p.gate);
    assert_eq!((p.integrity, p.confidentiality), (linear(3), linear(1)));
    p.open("low".to_string(), Some(LabelResponse::Confidentiality(linear(1))));
    assert_eq!((p.integrity, p.confidentiality), (linear(3), linear(1)));
    assert!(p.gate);
}

#[test]
fn resources_are_recorded_once_and_never_the_program_itself() {
    let mut p = Program::new("tool".to_string(), LabelResponse::Confidentiality(linear(3)));
    p.open("a".to_string(), None);
    p.open("tool".to_string(), None);
    p.open("a".to_string(), None);
    assert_eq!(p.resources, vec!["a"]);
    assert!(p.has_resource("a"));
    assert!(!p.has_resource("tool"));
    let q = p.clone();
    assert_eq!(q.resources, p.resources);
    assert_eq!(q.program_name, "tool");
}
