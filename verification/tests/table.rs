use lh_mount::error::Error;
use lh_mount::record::TableEntry;
use lh_mount::table::Table;

const A: &str = "/tmp/dropbox_folder/a";
const B: &str = "/tmp/dropbox_folder/b";
const C: &str = "/tmp/dropbox_folder/c";
const D: &str = "/tmp/dropbox_folder/d";

fn tag(value: i64) -> String {
    format!("labels = {{name=\"linear\",value={}}}", value)
}

fn chain() -> Table {
    let mut table = Table::new();
    table.derive(B, A, Some(&tag(2)), Some(&tag(3))).unwrap();
    table.derive(C, B, Some(&tag(1)), Some(&tag(2))).unwrap();
    table
}

fn sorted(mut names: Vec<String>) -> Vec<String> {
    names.sort();
    names
}

#[test]
fn a_new_store_tracks_nothing() {
    let table = Table::new();
    assert!(!table.contains(A));
    assert!(!table.contains_key(B, A));
    assert!(table.roots().is_empty());
}

#[test]
fn insert_tracks_a_root_with_its_label() {
    let mut table = Table::new();
    table.insert(A, Some(&tag(2))).unwrap();
    assert!(table.contains(A));
    let roots = table.roots();
    assert_eq!(roots.len(), 1);
    assert_eq!(roots[0].0, A);
    assert_eq!(roots[0].1.name, "a");
    assert_eq!(roots[0].1.labels, vec!["linear 2".to_string()]);
    assert_eq!(roots[0].1.parent, None);
    assert!(roots[0].1.children.is_empty());
}

#[test]
fn insert_without_a_tag_falls_back_to_the_default_label() {
    let mut table = Table::new();
    table.insert(A, None).unwrap();
    table.insert(B, Some("")).unwrap();
    table.insert(C, Some("this is not toml")).unwrap();
    let roots = table.roots();
    assert_eq!(roots.len(), 3);
    for (_, entry) in roots.iter() {
        assert_eq!(entry.labels, vec!["linear 3".to_string()]);
    }
}

#[test]
fn insert_rejects_a_tag_of_unexpected_shape() {
    let mut table = Table::new();
    assert_eq!(table.insert(A, Some("labels = 7")), Err(Error::InvalidFormat));
    assert_eq!(
        table.insert(A, Some("labels = {name=\"other\",value=1}")),
        Err(Error::InvalidFormat)
    );
    assert_eq!(
        table.insert(A, Some("labels = {name=\"linear\",value=\"1\"}")),
        Err(Error::InvalidFormat)
    );
    assert_eq!(table.insert(A, Some("labels = {name=\"linear\"}")), Err(Error::InvalidFormat));
    assert!(!table.contains(A));
}

#[test]
fn insert_rejects_a_path_without_a_final_component() {
    let mut table = Table::new();
    assert_eq!(table.insert("/", None), Err(Error::NotFound));
    assert_eq!(table.insert("..", None), Err(Error::NotFound));
}

#[test]
fn derive_records_the_edge_once() {
    let mut table = Table::new();
    table.derive(B, A, Some(&tag(2)), Some(&tag(3))).unwrap();
    assert!(table.contains(A));
    assert!(table.contains(B));
    assert!(table.contains_key(B, A));
    assert!(!table.contains_key(A, B));
    table.derive(B, A, Some(&tag(2)), Some(&tag(3))).unwrap();
    let roots = table.roots();
    assert_eq!(roots.len(), 1);
    assert_eq!(roots[0].0, A);
    assert_eq!(roots[0].1.children.len(), 1);
    assert_eq!(roots[0].1.children[0].0, B);
    assert_eq!(roots[0].1.children[0].1.parent, Some(vec![A.to_string()]));
}

#[test]
fn derive_again_refreshes_the_label() {
    let mut table = Table::new();
    table.derive(B, A, Some(&tag(2)), None).unwrap();
    table.derive(B, A, Some(&tag(1)), None).unwrap();
    let roots = table.roots();
    assert_eq!(roots[0].1.children.len(), 1);
    assert_eq!(roots[0].1.children[0].1.labels, vec!["linear 1".to_string()]);
}

#[test]
fn derive_keeps_an_existing_source_as_it_is() {
    let mut table = Table::new();
    table.insert(A, Some(&tag(1))).unwrap();
    table.derive(B, A, None, Some(&tag(3))).unwrap();
    let roots = table.roots();
    assert_eq!(roots[0].1.labels, vec!["linear 1".to_string()]);
}

#[test]
fn derive_moves_a_dataset_to_its_new_source() {
    let mut table = chain();
    table.derive(C, A, None, None).unwrap();
    assert!(table.contains_key(C, A));
    assert!(!table.contains_key(C, B));
    assert!(table.contains_key(B, A));
}

#[test]
fn derive_refuses_a_cycle() {
    let mut table = chain();
    assert_eq!(table.derive(A, C, None, None), Err(Error::Cyclic));
    assert_eq!(table.derive(A, A, None, None), Err(Error::Cyclic));
    assert_eq!(table.derive(D, D, None, None), Err(Error::Cyclic));
    assert!(!table.contains(D));
    assert!(table.contains_key(B, A));
    assert!(table.contains_key(C, B));
}

#[test]
fn revoke_lists_what_it_removes_in_pre_order() {
    let mut table = chain();
    table.derive(D, A, None, None).unwrap();
    table.derive("/tmp/dropbox_folder/e", D, None, None).unwrap();
    table.derive("/tmp/dropbox_folder/f", B, None, None).unwrap();
    let removed = table.revoke(A).unwrap();
    assert_eq!(removed.len(), 6);
    assert_eq!(removed[0], A);
    let at = |name: &str| removed.iter().position(|k| k == name).unwrap();
    // Every entry stands before what was derived from it.
    assert!(at(B) < at(C) && at(B) < at("/tmp/dropbox_folder/f"));
    assert!(at(D) < at("/tmp/dropbox_folder/e"));
    // What was derived from an entry follows it without a gap.
    let b_block = [at(B), at(C), at("/tmp/dropbox_folder/f")];
    assert_eq!(b_block.iter().max().unwrap() - at(B), 2);
    assert_eq!(at("/tmp/dropbox_folder/e"), at(D) + 1);
}

#[test]
fn delete_drops_an_entry_and_keeps_what_was_derived_from_it() {
    let mut table = chain();
    table.derive(D, A, None, None).unwrap();
    table.delete(B).unwrap();
    assert!(!table.contains(B));
    assert!(table.contains(C));
    assert!(!table.contains_key(C, B));
    assert!(table.contains_key(D, A));
    assert_eq!(table.roots().len(), 2);
    assert_eq!(table.delete(B), Err(Error::NotFound));
}

#[test]
fn delete_takes_along_sources_that_are_left_childless() {
    let mut table = chain();
    table.delete(C).unwrap();
    assert!(!table.contains(C));
    assert!(!table.contains(B));
    assert!(!table.contains(A));
    let mut table = chain();
    table.derive(D, A, None, None).unwrap();
    table.delete(C).unwrap();
    assert!(!table.contains(B));
    assert!(table.contains(A));
    assert!(table.contains_key(D, A));
}

#[test]
fn revoke_cascades_down_the_chain() {
    let mut table = chain();
    let removed = table.revoke(A).unwrap();
    assert_eq!(removed, vec![A.to_string(), B.to_string(), C.to_string()]);
    assert!(!table.contains(A));
    assert!(!table.contains(B));
    assert!(!table.contains(C));
}

#[test]
fn revoke_in_the_middle_leaves_the_ancestor() {
    let mut table = chain();
    let removed = table.revoke(B).unwrap();
    assert_eq!(sorted(removed), vec![B.to_string(), C.to_string()]);
    assert!(table.contains(A));
    assert!(!table.contains(B));
    assert!(!table.contains(C));
    assert!(!table.contains_key(B, A));
    assert!(table.roots()[0].1.children.is_empty());
}

#[test]
fn revoke_leaves_other_trees_alone() {
    let mut table = chain();
    table.derive(D, A, None, None).unwrap();
    table.revoke(B).unwrap();
    assert!(table.contains_key(D, A));
}

#[test]
fn revoke_of_an_untracked_dataset_is_not_found() {
    let mut table = chain();
    assert_eq!(table.revoke(D), Err(Error::NotFound));
    assert!(table.contains(A));
}

#[test]
fn rename_preserves_lineage() {
    let mut table = chain();
    table.rename(D, B).unwrap();
    assert!(table.contains_key(D, A));
    assert!(!table.contains_key(B, A));
    assert!(!table.contains(B));
    assert!(table.contains_key(C, D));
    let roots = table.roots();
    let renamed = &roots[0].1.children[0];
    assert_eq!(renamed.0, D);
    assert_eq!(renamed.1.name, D);
    assert_eq!(renamed.1.labels, vec!["linear 2".to_string()]);
    assert_eq!(renamed.1.children[0].1.parent, Some(vec![D.to_string()]));
}

#[test]
fn rename_of_an_untracked_dataset_is_not_found() {
    let mut table = chain();
    assert_eq!(table.rename(D, "/tmp/dropbox_folder/nothing"), Err(Error::NotFound));
}

#[test]
fn rename_onto_a_tracked_name_takes_its_place() {
    let mut table = chain();
    table.insert(D, Some(&tag(1))).unwrap();
    table.derive("/tmp/dropbox_folder/e", D, None, None).unwrap();
    table.rename(D, C).unwrap();
    assert!(table.contains_key(D, B));
    assert!(!table.contains(C));
    assert!(table.contains_key("/tmp/dropbox_folder/e", D));
}

#[test]
fn rename_refuses_a_cycle() {
    let mut table = chain();
    assert_eq!(table.rename(A, C), Err(Error::Cyclic));
    assert!(table.contains_key(C, B));
}

#[test]
fn the_persisted_form_loads_as_the_same_store() {
    let mut table = chain();
    table.derive(D, A, Some(&tag(3)), None).unwrap();
    table.insert("/tmp/dropbox_folder/lonely", Some(&tag(1))).unwrap();
    let roots = table.roots();
    let loaded = Table::from_roots(&roots).unwrap();
    for name in [A, B, C, D, "/tmp/dropbox_folder/lonely"] {
        assert!(loaded.contains(name));
    }
    assert!(loaded.contains_key(B, A));
    assert!(loaded.contains_key(C, B));
    assert!(loaded.contains_key(D, A));
    assert!(!loaded.contains_key(C, A));
    let again = loaded.roots();
    assert_eq!(format!("{:?}", again), format!("{:?}", roots));
}

fn record(name: &str, parent: Option<&str>, children: Vec<(String, TableEntry)>) -> TableEntry {
    TableEntry {
        labels: vec!["linear 3".to_string()],
        name: name.to_string(),
        children,
        parent: parent.map(|p| vec![p.to_string()]),
    }
}

#[test]
fn loading_rejects_malformed_records() {
    // A root that names a parent.
    let roots = vec![(A.to_string(), record("a", Some(B), vec![]))];
    assert!(matches!(Table::from_roots(&roots), Err(Error::InvalidFormat)));
    // A child that names another parent than the record around it.
    let roots = vec![(
        A.to_string(),
        record("a", None, vec![(B.to_string(), record("b", Some(C), vec![]))]),
    )];
    assert!(matches!(Table::from_roots(&roots), Err(Error::InvalidFormat)));
    // A key that occurs twice.
    let roots = vec![
        (A.to_string(), record("a", None, vec![(B.to_string(), record("b", Some(A), vec![]))])),
        (B.to_string(), record("b", None, vec![])),
    ];
    assert!(matches!(Table::from_roots(&roots), Err(Error::InvalidFormat)));
    // A well-formed pair of trees.
    let roots = vec![
        (A.to_string(), record("a", None, vec![(B.to_string(), record("b", Some(A), vec![]))])),
        (C.to_string(), record("c", None, vec![])),
    ];
    let table = Table::from_roots(&roots).unwrap();
    assert!(table.contains_key(B, A));
    assert!(table.contains(C));
}

#[test]
fn data_is_derived_from_every_resource() {
    let mut program = lh_mount::program::Program::new(
        "tool".to_string(),
        lh_mount::permission::LabelResponse::Confidentiality(
            lh_mount::lattice::lattice_pair_default(),
        ),
    );
    program.open(A.to_string(), None);
    program.open(B.to_string(), None);
    let tags = vec![Some(tag(1)), None];
    let mut table = Table::new();
    let changed =
        lh_mount::config::derive_data(&mut table, C, Some(&tag(2)), &program, &tags).unwrap();
    assert!(changed);
    // The file is derived from the resource recorded last.
    assert!(table.contains(A));
    assert!(table.contains_key(C, B));
    assert!(!table.contains_key(C, A));
    // A program that opened what it writes cannot derive it from itself.
    program.open(C.to_string(), None);
    let tags = vec![None, None, None];
    assert_eq!(
        lh_mount::config::derive_data(&mut table, C, None, &program, &tags),
        Err(Error::Cyclic)
    );
    let empty = lh_mount::program::Program::new(
        "idle".to_string(),
        lh_mount::permission::LabelResponse::Confidentiality(
            lh_mount::lattice::lattice_pair_default(),
        ),
    );
    assert_eq!(lh_mount::config::derive_data(&mut table, D, None, &empty, &vec![]), Ok(false));
    assert!(!table.contains(D));
}

#[test]
fn revoking_the_input_deletes_the_output() {
    // A dataset `input` is public; a program that read it writes `output`.
    let input = "/tmp/dropbox_folder/input";
    let output = "/tmp/dropbox_folder/output";
    let mut table = Table::new();
    table.insert(input, Some(&tag(3))).unwrap();
    let mut program = lh_mount::program::Program::new(
        "tool".to_string(),
        lh_mount::permission::LabelResponse::Confidentiality(
            lh_mount::lattice::lattice_pair_default(),
        ),
    );
    let label = lh_mount::permission::tag_label(Some(&tag(3))).unwrap();
    assert_eq!(
        lh_mount::permission::check_permission(
            &program.confidentiality,
            Some(&tag(3)),
            lh_mount::permission::RequestType::READ
        ),
        Ok(0)
    );
    program.open(
        input.to_string(),
        Some(lh_mount::permission::LabelResponse::Confidentiality(label)),
    );
    assert_eq!(program.resources, vec![input.to_string()]);
    for source in program.resources.iter() {
        let changed =
            lh_mount::config::derive_from_source(&mut table, output, source, None, Some(&tag(3)))
                .unwrap();
        assert!(changed);
    }
    assert!(table.contains_key(output, input));
    let removed = table.revoke(input).unwrap();
    assert_eq!(sorted(removed), vec![input.to_string(), output.to_string()]);
    assert!(!table.contains(output));
}
