use lh_mount::error::Error;
use lh_mount::record::TableEntry;
use lh_mount::render::{_format, caption, captions, label_value, lattice_color, tree_line};
use lh_mount::table::Table;

fn plain() {
    colored::control::set_override(false);
}

#[test]
fn values_have_captions_from_one_to_three() {
    plain();
    assert_eq!(lattice_color(1), Some("1 (private)".to_string()));
    assert_eq!(lattice_color(2), Some("2 (sensitive)".to_string()));
    assert_eq!(lattice_color(3), Some("3 (public)".to_string()));
    assert_eq!(lattice_color(0), None);
    assert_eq!(lattice_color(4), None);
    assert_eq!(caption("7", "seven"), "7 (seven)");
    assert_eq!(label_value("linear 3"), Some(3));
    assert_eq!(label_value("linear"), None);
    assert_eq!(label_value("linear x"), None);
    assert_eq!(
        captions(&vec!["linear 1".to_string(), "linear 3".to_string()]),
        Some("1 (private),3 (public)".to_string())
    );
    assert_eq!(captions(&vec!["linear 9".to_string()]), None);
    assert_eq!(captions(&vec![]), Some(String::new()));
}

#[test]
fn lines_are_indented_by_level() {
    assert_eq!(tree_line(1, false, "a", "@", "L"), "└── a @label L\n");
    assert_eq!(tree_line(1, true, "a", "@", "L"), "└── a @label L\n");
    assert_eq!(tree_line(2, false, "a", "@", "L"), "    ├── a @label L\n");
    assert_eq!(tree_line(2, true, "a", "@", "L"), "    └── a @label L\n");
    assert_eq!(tree_line(3, false, "a", "@", "L"), "        ├── a @label L\n");
    assert_eq!(tree_line(0, false, "a", "@", "L"), "└── a @label L\n");
}

#[test]
fn the_store_is_drawn_as_a_tree() {
    plain();
    let tag = |v: i64| format!("labels = {{name=\"linear\",value={}}}", v);
    let mut table = Table::new();
    table.derive("/d/b", "/d/a", Some(&tag(2)), Some(&tag(3))).unwrap();
    table.derive("/d/c", "/d/a", Some(&tag(1)), None).unwrap();
    table.derive("/d/e", "/d/b", Some(&tag(1)), None).unwrap();
    assert_eq!(
        table.render(),
        Ok("DATASETS:\n\
            └── a @label 3 (public)\n    \
                ├── b @label 2 (sensitive)\n        \
                    └── e @label 1 (private)\n    \
                └── c @label 1 (private)\n"
            .to_string())
    );
    assert_eq!(Table::new().render(), Ok("DATASETS:\n".to_string()));
}

#[test]
fn entries_without_captions_cannot_be_drawn() {
    plain();
    let mut table = Table::new();
    table.insert("/d/a", Some("labels = {name=\"linear\",value=7}")).unwrap();
    assert_eq!(table.render(), Err(Error::InvalidFormat));
    let entry = TableEntry {
        labels: vec!["linear 3".to_string()],
        name: "/".to_string(),
        children: vec![],
        parent: None,
    };
    assert_eq!(_format(1, String::new(), &entry, true), Err(Error::InvalidFormat));
}
