use lh_mount::record::TableEntry;
use lh_mount::render::{_format, lattice_color};

#[test]
fn painted_parts_stand_between_style_and_reset() {
    colored::control::set_override(true);
    assert_eq!(lattice_color(1), Some("1 (\u{1b}[31mprivate\u{1b}[0m)".to_string()));
    assert_eq!(lattice_color(2), Some("2 (\u{1b}[33msensitive\u{1b}[0m)".to_string()));
    assert_eq!(lattice_color(3), Some("3 (\u{1b}[92mpublic\u{1b}[0m)".to_string()));
    let entry = TableEntry {
        labels: vec!["linear 2".to_string()],
        name: "/d/data".to_string(),
        children: vec![],
        parent: None,
    };
    let drawn = _format(1, "DATASETS:\n".to_string(), &entry, true).unwrap();
    let line = drawn.strip_prefix("DATASETS:\n\u{2514}\u{2500}\u{2500} ").unwrap();
    let (name, rest) = line.split_once(' ').unwrap();
    assert_eq!(name, "\u{1b}[32mdata\u{1b}[0m");
    let (marker, rest) = rest.split_once("label ").unwrap();
    assert!(marker.ends_with("@\u{1b}[0m") && marker.starts_with("\u{1b}["));
    assert_eq!(rest, "2 (\u{1b}[33msensitive\u{1b}[0m)\n");
}
