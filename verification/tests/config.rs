use lh_mount::config::{
    check_for_known_program, config, derive_from_descriptor, error_code, errhandle,
    file_for_temp, get_cmdline_output, get_cmdline_output_and_name, get_name_and_file,
    get_parent_process, get_program_name, get_temp_name, log_line, parse_u32,
    planned_derivation, program_name_from_path, set_lattice_of_new_file, IoKind,
};
use lh_mount::error::Error;
use lh_mount::lattice::{LatticeType, LatticeValue};
use lh_mount::permission::LabelResponse;
use lh_mount::program::Program;

fn lines(v: &[&str]) -> Vec<String> {
    v.iter().map(|s| s.to_string()).collect()
}

#[test]
fn configuration_is_read_by_key() {
    let conf = lines(&["PATH=/mnt/view", "TARGET=/tmp/dropbox_folder", "FILE=/tmp/image=1"]);
    assert_eq!(config(&conf, "PATH"), Ok("/mnt/view".to_string()));
    assert_eq!(config(&conf, "TARGET"), Ok("/tmp/dropbox_folder".to_string()));
    assert_eq!(config(&conf, "FILE"), Ok("/tmp/image=1".to_string()));
    assert_eq!(config(&conf, "OTHER"), Err(Error::NotFound));
    assert_eq!(config(&lines(&["A=1", "A=2"]), "A"), Ok("2".to_string()));
    assert_eq!(config(&lines(&["A=1", "broken"]), "A"), Err(Error::InvalidFormat));
    assert_eq!(config(&lines(&[]), "A"), Err(Error::NotFound));
}

#[test]
fn command_lines_split_at_nul() {
    assert_eq!(
        get_name_and_file("/usr/bin/cat\0/tmp/a\0"),
        Some(("cat".to_string(), "/tmp/a".to_string()))
    );
    assert_eq!(get_name_and_file("/usr/bin/cat"), None);
    assert_eq!(get_program_name("/usr/bin/python3\0script.py\0"), Some("python3".to_string()));
    assert_eq!(get_program_name("bash"), Some("bash".to_string()));
    assert_eq!(get_program_name(""), None);
    assert_eq!(
        get_cmdline_output("a\0b c\0"),
        vec!["a".to_string(), "b c".to_string()]
    );
    assert_eq!(get_cmdline_output(""), Vec::<String>::new());
    assert_eq!(
        get_cmdline_output_and_name("/bin/cp\0x\0y\0"),
        Some(("/bin/cp".to_string(), "/bin/cp x y ".to_string()))
    );
    assert_eq!(get_cmdline_output_and_name("plain"), None);
    assert_eq!(program_name_from_path("/a/b/tool"), Some("tool".to_string()));
    assert_eq!(program_name_from_path("/"), None);
}

#[test]
fn temp_names_start_with_a_dot() {
    assert_eq!(get_temp_name("/tmp/dir/data.csv"), Some(".data.csv".to_string()));
    assert_eq!(get_temp_name("/"), None);
    assert_eq!(file_for_temp("/tmp/dir/..data"), Some(true));
    assert_eq!(file_for_temp("/tmp/dir/.data"), Some(false));
    assert_eq!(file_for_temp("/tmp/dir/a.b"), Some(true));
    assert_eq!(file_for_temp("/tmp/dir/x"), Some(false));
    assert_eq!(file_for_temp("/tmp/dir/\u{e9}.x"), None);
    assert_eq!(file_for_temp("/"), None);
}

#[test]
fn log_lines_hold_prefix_program_and_time() {
    assert_eq!(log_line("open", "cat", "1700000000"), "open cat 1700000000\n");
}

#[test]
fn the_parent_is_read_from_the_status() {
    let status = "Name:\tcat\nUmask:\t0022\nState:\tR (running)\nPid:\t4242\nPPid:\t4000\nTracerPid:\t0\n";
    assert_eq!(get_parent_process(status), Some(4000));
    assert_eq!(get_parent_process("Name:\tcat\n"), None);
    assert_eq!(get_parent_process("PPid:\n"), None);
    assert_eq!(get_parent_process("PPid: x\nPPid: 3\n"), None);
    assert_eq!(parse_u32("4294967295"), Some(u32::MAX));
    assert_eq!(parse_u32("4294967296"), None);
    assert_eq!(parse_u32("-0"), None);
    assert_eq!(parse_u32("+7"), Some(7));
}

#[test]
fn descriptors_read_a_derivation_off_the_command_line() {
    let descriptor = "input = 'cp (\\S+) \\S+'\noutput = 'cp \\S+ (\\S+)'\n";
    assert_eq!(
        derive_from_descriptor(descriptor, "cp in.csv out.csv", "/tmp/dropbox_folder"),
        Ok(Some((
            "/tmp/dropbox_folder/out.csv".to_string(),
            "/tmp/dropbox_folder/in.csv".to_string()
        )))
    );
    assert_eq!(derive_from_descriptor("input = 'cp (\\S+)'", "cp a b", "/base"), Ok(None));
    assert_eq!(derive_from_descriptor("", "cp a b", "/base"), Ok(None));
    assert_eq!(
        derive_from_descriptor("input = 'x(y)?'\noutput = 'x(y)?'", "x", "/base"),
        Ok(None)
    );
    assert_eq!(
        derive_from_descriptor("input = 'mv (\\S+)'\noutput = 'mv (\\S+)'", "cp a b", "/base"),
        Err(Error::InvalidFormat)
    );
    assert_eq!(derive_from_descriptor("input = '('", "cp a b", "/base"), Err(Error::InvalidFormat));
    assert_eq!(derive_from_descriptor("input = 3", "cp a b", "/base"), Err(Error::InvalidFormat));
    assert_eq!(derive_from_descriptor("= =", "cp a b", "/base"), Err(Error::InvalidFormat));
    assert_eq!(
        planned_derivation(Some("i".to_string()), Some("o".to_string()), "/b"),
        Some(("/b/o".to_string(), "/b/i".to_string()))
    );
    assert_eq!(planned_derivation(None, Some("o".to_string()), "/b"), None);
}

#[test]
fn known_programs_have_descriptors() {
    let known = lines(&["tool", "other"]);
    assert_eq!(
        check_for_known_program("/usr/bin/tool\0--flag\0", &known, "/tmp/dropbox_folder"),
        Some("/tmp/dropbox_folder/exe/tool".to_string())
    );
    assert_eq!(check_for_known_program("/usr/bin/cat\0x\0", &known, "/b"), None);
    assert_eq!(check_for_known_program("", &known, "/b"), None);
}

#[test]
fn new_files_carry_the_integrity_of_their_program() {
    let program = Program::new(
        "tool".to_string(),
        LabelResponse::Gate {
            integrity: (LatticeType::LinearNumber, LatticeValue::Number(2)),
            confidentiality: (LatticeType::LinearNumber, LatticeValue::Number(1)),
        },
    );
    let w = set_lattice_of_new_file("/tmp/dropbox_folder", "out.csv", &program);
    assert_eq!(w.file, "/tmp/dropbox_folder/out.csv");
    assert_eq!(w.name, "user.label");
    assert_eq!(w.value, "labels = {name=\"linear\",value=2}");
}

#[test]
fn paths_are_joined_as_std_joins_them() {
    let program = Program::new(
        "tool".to_string(),
        LabelResponse::Confidentiality((LatticeType::LinearNumber, LatticeValue::Number(3))),
    );
    for (base, tail) in [
        ("/base", "x"),
        ("/base/", "x"),
        ("/base", "/abs"),
        ("", "x"),
        ("/base", ""),
        ("/", "x"),
        ("rel", "a/b"),
        ("", ""),
        ("", "/"),
    ] {
        let expected = std::path::Path::new(base).join(tail);
        assert_eq!(
            set_lattice_of_new_file(base, tail, &program).file,
            expected.to_str().unwrap(),
            "{:?} {:?}",
            base,
            tail
        );
    }
    assert_eq!(set_lattice_of_new_file("/base", "x", &program).file, "/base/x");
    assert_eq!(set_lattice_of_new_file("/base/", "x", &program).file, "/base/x");
    assert_eq!(set_lattice_of_new_file("/base", "/abs", &program).file, "/abs");
    assert_eq!(set_lattice_of_new_file("", "x", &program).file, "x");
    assert_eq!(set_lattice_of_new_file("/base", "", &program).file, "/base/");
}

#[test]
fn failures_map_to_error_codes() {
    assert_eq!(errhandle(IoKind::PermissionDenied), (1, false));
    assert_eq!(errhandle(IoKind::NotFound), (2, true));
    assert_eq!(errhandle(IoKind::Other), (5, false));
    assert_eq!(error_code(Error::NotFound), 2);
    assert_eq!(error_code(Error::PermissionDenied), 1);
    assert_eq!(error_code(Error::InvalidFormat), 5);
    assert_eq!(error_code(Error::CompileFailure(7)), 5);
    assert_eq!(error_code(Error::ExecutionFailure(7)), 5);
    assert_eq!(error_code(Error::IoFailure), 5);
    assert_eq!(error_code(Error::Cyclic), 5);
}
