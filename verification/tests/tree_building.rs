use text_ingest::directory::records::{check_links, compute_depths, Record, TreeError};
use text_ingest::directory::state::SelectionState;
use text_ingest::directory::tree::DirectoryTree;

fn dir(parent: Option<usize>, name: &str) -> Record {
    Record { parent, name: name.to_string(), is_directory: true, size: None }
}

fn file(parent: Option<usize>, name: &str, size: u64) -> Record {
    Record { parent, name: name.to_string(), is_directory: false, size: Some(size) }
}

fn project() -> Vec<Record> {
    vec![
        dir(None, "proj"),
        dir(Some(0), "src"),
        file(Some(0), "README.md", 100),
        file(Some(1), "main.rs", 200),
        file(Some(1), "lib.rs", 300),
        dir(Some(0), "docs"),
        file(Some(5), "guide.md", 50),
    ]
}

fn fails_with(records: &Vec<Record>, expected: TreeError) -> bool {
    match DirectoryTree::from_records(records) {
        Ok(_) => false,
        Err(e) => e == expected,
    }
}

#[test]
fn records_become_nodes_with_their_own_data() {
    let tree = DirectoryTree::from_records(&project()).unwrap();
    assert_eq!(tree.len(), 7);
    assert_eq!(tree.root_index(), Some(0));
    let main = tree.get_node(3).unwrap();
    assert_eq!(main.index, 3);
    assert_eq!(main.name, "main.rs");
    assert!(!main.is_directory);
    assert_eq!(main.size, Some(200));
    assert_eq!(main.parent, Some(1));
    assert_eq!(main.depth, 2);
    assert_eq!(main.state, SelectionState::Included);
    assert!(main.children.is_empty());
}

#[test]
fn every_node_starts_included() {
    let tree = DirectoryTree::from_records(&project()).unwrap();
    for i in 0..tree.len() {
        assert_eq!(tree.get_node(i).unwrap().state, SelectionState::Included);
    }
}

#[test]
fn children_are_stored_in_record_order() {
    let tree = DirectoryTree::from_records(&project()).unwrap();
    assert_eq!(tree.children_of(0), vec![1, 2, 5]);
    assert_eq!(tree.children_of(1), vec![3, 4]);
    assert_eq!(tree.children_of(5), vec![6]);
    assert_eq!(tree.children_of(3), Vec::<usize>::new());
    assert_eq!(tree.children_of(99), Vec::<usize>::new());
}

#[test]
fn ancestors_come_nearest_first_and_end_at_the_root() {
    let tree = DirectoryTree::from_records(&project()).unwrap();
    assert_eq!(tree.ancestors_of(3), vec![1, 0]);
    assert_eq!(tree.ancestors_of(6), vec![5, 0]);
    assert_eq!(tree.ancestors_of(1), vec![0]);
    assert_eq!(tree.ancestors_of(0), Vec::<usize>::new());
    assert_eq!(tree.ancestors_of(99), Vec::<usize>::new());
}

#[test]
fn get_node_is_none_out_of_range() {
    let tree = DirectoryTree::from_records(&project()).unwrap();
    assert!(tree.get_node(6).is_some());
    assert!(tree.get_node(7).is_none());
    assert!(tree.get_node(usize::MAX).is_none());
}

#[test]
fn preorder_visits_a_node_before_its_children() {
    let tree = DirectoryTree::from_records(&project()).unwrap();
    assert_eq!(tree.preorder(), vec![0, 1, 3, 4, 2, 5, 6]);
}

#[test]
fn a_directory_record_loses_its_size() {
    let records = vec![Record { parent: None, name: "d".to_string(), is_directory: true, size: Some(4096) }];
    let tree = DirectoryTree::from_records(&records).unwrap();
    assert_eq!(tree.get_node(0).unwrap().size, None);
}

#[test]
fn a_file_may_come_without_a_size() {
    let records =
        vec![dir(None, "d"), Record { parent: Some(0), name: "f".to_string(), is_directory: false, size: None }];
    let tree = DirectoryTree::from_records(&records).unwrap();
    assert_eq!(tree.get_node(1).unwrap().size, None);
}

#[test]
fn no_records_make_an_empty_tree() {
    let tree = DirectoryTree::from_records(&Vec::new()).unwrap();
    assert_eq!(tree.len(), 0);
    assert_eq!(tree.root_index(), None);
    assert!(tree.get_node(0).is_none());
    assert_eq!(tree.preorder(), Vec::<usize>::new());
}

#[test]
fn a_child_may_come_before_its_parent() {
    let records = vec![file(Some(2), "a", 1), file(Some(2), "b", 2), dir(None, "top")];
    let tree = DirectoryTree::from_records(&records).unwrap();
    assert_eq!(tree.root_index(), Some(2));
    assert_eq!(tree.children_of(2), vec![0, 1]);
    assert_eq!(tree.preorder(), vec![2, 0, 1]);
    assert_eq!(tree.get_node(0).unwrap().depth, 1);
    assert_eq!(tree.get_node(2).unwrap().depth, 0);
}

#[test]
fn a_single_file_is_a_tree() {
    let tree = DirectoryTree::from_records(&vec![file(None, "only", 9)]).unwrap();
    assert_eq!(tree.root_index(), Some(0));
    assert_eq!(tree.preorder(), vec![0]);
}

#[test]
fn a_parent_beyond_the_records_is_missing() {
    assert!(fails_with(&vec![dir(None, "d"), file(Some(2), "a", 1)], TreeError::MissingParent));
}

#[test]
fn a_file_cannot_be_a_parent() {
    assert!(fails_with(
        &vec![dir(None, "d"), file(Some(0), "a", 1), file(Some(1), "b", 1)],
        TreeError::ParentNotDirectory
    ));
}

#[test]
fn two_records_without_parent_are_two_roots() {
    assert!(fails_with(&vec![dir(None, "a"), dir(None, "b")], TreeError::MultipleRoots));
}

#[test]
fn directories_that_hold_each_other_are_a_cycle() {
    assert!(fails_with(&vec![dir(None, "top"), dir(Some(2), "a"), dir(Some(1), "b")], TreeError::Cycle));
}

#[test]
fn a_directory_that_holds_itself_is_a_cycle() {
    assert!(fails_with(&vec![dir(None, "top"), dir(Some(1), "a")], TreeError::Cycle));
}

#[test]
fn records_that_all_have_a_parent_are_a_cycle() {
    assert!(fails_with(&vec![dir(Some(1), "a"), dir(Some(0), "b")], TreeError::Cycle));
}

#[test]
fn a_missing_parent_is_reported_before_other_faults() {
    let records = vec![dir(None, "a"), dir(None, "b"), file(Some(0), "f", 1), file(Some(2), "g", 1), file(Some(9), "h", 1)];
    assert!(fails_with(&records, TreeError::MissingParent));
}

#[test]
fn a_file_parent_is_reported_before_two_roots() {
    let records = vec![dir(None, "a"), dir(None, "b"), file(Some(0), "f", 1), file(Some(2), "g", 1)];
    assert!(fails_with(&records, TreeError::ParentNotDirectory));
}

#[test]
fn two_roots_are_reported_before_a_cycle() {
    let records = vec![dir(None, "a"), dir(None, "b"), dir(Some(3), "c"), dir(Some(2), "d")];
    assert!(fails_with(&records, TreeError::MultipleRoots));
}

#[test]
fn a_long_chain_of_directories_is_a_tree() {
    let mut records = vec![dir(None, "d0")];
    for i in 1..500 {
        records.push(dir(Some(i - 1), "d"));
    }
    let tree = DirectoryTree::from_records(&records).unwrap();
    assert_eq!(tree.get_node(499).unwrap().depth, 499);
    assert_eq!(tree.ancestors_of(499).len(), 499);
}

#[test]
fn check_links_finds_the_root() {
    assert_eq!(check_links(&project()), Ok(Some(0)));
    assert_eq!(check_links(&vec![file(Some(1), "f", 1), dir(None, "d")]), Ok(Some(1)));
    assert_eq!(check_links(&Vec::new()), Ok(None));
    assert_eq!(check_links(&vec![dir(Some(1), "a"), dir(Some(0), "b")]), Ok(None));
}

#[test]
fn check_links_reports_the_first_kind_of_fault() {
    assert_eq!(check_links(&vec![dir(None, "d"), file(Some(2), "a", 1)]), Err(TreeError::MissingParent));
    assert_eq!(
        check_links(&vec![dir(None, "d"), file(Some(0), "a", 1), file(Some(1), "b", 1)]),
        Err(TreeError::ParentNotDirectory)
    );
    assert_eq!(check_links(&vec![dir(None, "a"), dir(None, "b")]), Err(TreeError::MultipleRoots));
}

#[test]
fn depths_count_the_links_to_the_root() {
    assert_eq!(compute_depths(&project()), Ok(vec![0, 1, 1, 2, 2, 1, 2]));
    assert_eq!(compute_depths(&vec![file(Some(2), "f", 1), dir(Some(2), "d"), dir(None, "top")]), Ok(vec![1, 1, 0]));
    assert_eq!(compute_depths(&Vec::new()), Ok(Vec::new()));
}

#[test]
fn depths_of_a_cycle_cannot_be_measured() {
    assert_eq!(compute_depths(&vec![dir(None, "top"), dir(Some(2), "a"), dir(Some(1), "b")]), Err(TreeError::Cycle));
    assert_eq!(compute_depths(&vec![dir(Some(0), "a")]), Err(TreeError::Cycle));
}
