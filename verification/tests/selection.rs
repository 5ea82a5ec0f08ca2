use text_ingest::directory::records::{Record, TreeError};
use text_ingest::directory::state::SelectionState;
use text_ingest::directory::tree::DirectoryTree;

fn dir(parent: Option<usize>, name: &str) -> Record {
    Record { parent, name: name.to_string(), is_directory: true, size: None }
}

fn file(parent: Option<usize>, name: &str, size: u64) -> Record {
    Record { parent, name: name.to_string(), is_directory: false, size: Some(size) }
}

fn state(tree: &DirectoryTree, index: usize) -> SelectionState {
    tree.get_node(index).unwrap().state
}

fn states(tree: &DirectoryTree) -> Vec<SelectionState> {
    (0..tree.len()).map(|i| state(tree, i)).collect()
}

fn project() -> DirectoryTree {
    let records = vec![
        dir(None, "proj"),
        dir(Some(0), "src"),
        file(Some(0), "README.md", 100),
        file(Some(1), "main.rs", 200),
        file(Some(1), "lib.rs", 300),
        dir(Some(0), "docs"),
        file(Some(5), "guide.md", 50),
    ];
    DirectoryTree::from_records(&records).unwrap()
}

fn aggregate_of(tree: &DirectoryTree, index: usize) -> SelectionState {
    let children = tree.children_of(index);
    if children.iter().all(|&c| state(tree, c) == SelectionState::Included) {
        SelectionState::Included
    } else if children.iter().all(|&c| state(tree, c) == SelectionState::Excluded) {
        SelectionState::Excluded
    } else {
        SelectionState::Partial
    }
}

fn leaves_below(tree: &DirectoryTree, index: usize, out: &mut Vec<usize>) {
    let children = tree.children_of(index);
    if children.is_empty() {
        out.push(index);
    }
    for c in children {
        leaves_below(tree, c, out);
    }
}

fn assert_flags_reflect_leaves(tree: &DirectoryTree) {
    for i in 0..tree.len() {
        let mut leaves = Vec::new();
        leaves_below(tree, i, &mut leaves);
        let all_in = leaves.iter().all(|&j| state(tree, j) == SelectionState::Included);
        let all_out = leaves.iter().all(|&j| state(tree, j) == SelectionState::Excluded);
        assert_eq!(state(tree, i) == SelectionState::Included, all_in, "node {}", i);
        assert_eq!(state(tree, i) == SelectionState::Excluded, all_out, "node {}", i);
        assert_eq!(state(tree, i) == SelectionState::Partial, !all_in && !all_out, "node {}", i);
    }
}

fn assert_consistent(tree: &DirectoryTree) {
    for i in 0..tree.len() {
        if tree.children_of(i).is_empty() {
            assert_ne!(state(tree, i), SelectionState::Partial, "node {}", i);
        } else {
            assert_eq!(state(tree, i), aggregate_of(tree, i), "node {}", i);
        }
    }
}

#[test]
fn toggled_moves_included_and_partial_to_excluded() {
    assert_eq!(SelectionState::Included.toggled(), SelectionState::Excluded);
    assert_eq!(SelectionState::Partial.toggled(), SelectionState::Excluded);
    assert_eq!(SelectionState::Excluded.toggled(), SelectionState::Included);
}

#[test]
fn mixed_directory_is_partial_and_toggles_to_excluded() {
    let records = vec![dir(None, "d"), file(Some(0), "a", 1), file(Some(0), "b", 2)];
    let mut tree = DirectoryTree::from_records(&records).unwrap();
    tree.toggle(2);
    assert_eq!(state(&tree, 1), SelectionState::Included);
    assert_eq!(state(&tree, 2), SelectionState::Excluded);
    assert_eq!(state(&tree, 0), SelectionState::Partial);
    tree.toggle(0);
    assert_eq!(state(&tree, 0), SelectionState::Excluded);
    assert_eq!(state(&tree, 1), SelectionState::Excluded);
    assert_eq!(state(&tree, 2), SelectionState::Excluded);
}

#[test]
fn a_record_with_a_parent_beyond_the_table_is_refused() {
    let records = vec![dir(None, "d"), file(Some(7), "a", 1)];
    assert!(matches!(DirectoryTree::from_records(&records), Err(TreeError::MissingParent)));
}

#[test]
fn toggling_a_leaf_twice_restores_the_tree() {
    let mut tree = project();
    tree.toggle(4);
    let before = states(&tree);
    tree.toggle(3);
    assert_eq!(state(&tree, 3), SelectionState::Excluded);
    tree.toggle(3);
    assert_eq!(state(&tree, 3), SelectionState::Included);
    assert_eq!(states(&tree), before);
}

#[test]
fn toggling_an_included_directory_twice_restores_the_tree() {
    let mut tree = project();
    tree.toggle(6);
    let before = states(&tree);
    tree.toggle(1);
    assert_eq!(state(&tree, 3), SelectionState::Excluded);
    assert_eq!(state(&tree, 4), SelectionState::Excluded);
    tree.toggle(1);
    assert_eq!(states(&tree), before);
}

#[test]
fn toggling_a_partial_directory_twice_does_not_restore_partial() {
    let mut tree = project();
    tree.toggle(3);
    assert_eq!(state(&tree, 1), SelectionState::Partial);
    tree.toggle(1);
    assert_eq!(state(&tree, 1), SelectionState::Excluded);
    tree.toggle(1);
    assert_eq!(state(&tree, 1), SelectionState::Included);
    assert_eq!(state(&tree, 3), SelectionState::Included);
    assert_eq!(state(&tree, 4), SelectionState::Included);
}

#[test]
fn toggling_a_directory_reaches_every_descendant() {
    let mut tree = project();
    tree.toggle(0);
    assert_eq!(states(&tree), vec![SelectionState::Excluded; 7]);
    tree.toggle(3);
    tree.toggle(0);
    assert_eq!(states(&tree), vec![SelectionState::Excluded; 7]);
    tree.toggle(0);
    assert_eq!(states(&tree), vec![SelectionState::Included; 7]);
}

#[test]
fn a_toggle_recomputes_only_the_ancestors() {
    let mut tree = project();
    tree.toggle(3);
    assert_eq!(
        states(&tree),
        vec![
            SelectionState::Partial,
            SelectionState::Partial,
            SelectionState::Included,
            SelectionState::Excluded,
            SelectionState::Included,
            SelectionState::Included,
            SelectionState::Included,
        ]
    );
    tree.toggle(4);
    assert_eq!(state(&tree, 1), SelectionState::Excluded);
    assert_eq!(state(&tree, 0), SelectionState::Partial);
    tree.toggle(2);
    tree.toggle(5);
    assert_eq!(state(&tree, 6), SelectionState::Excluded);
    assert_eq!(state(&tree, 0), SelectionState::Excluded);
}

#[test]
fn a_toggle_out_of_range_changes_nothing() {
    let mut tree = project();
    tree.toggle(3);
    let before = states(&tree);
    tree.toggle(7);
    tree.toggle(usize::MAX);
    assert_eq!(states(&tree), before);
}

#[test]
fn a_toggle_keeps_names_sizes_and_links() {
    let mut tree = project();
    tree.toggle(1);
    let node = tree.get_node(3).unwrap();
    assert_eq!(node.name, "main.rs");
    assert_eq!(node.size, Some(200));
    assert_eq!(node.parent, Some(1));
    assert_eq!(node.index, 3);
    assert_eq!(tree.children_of(0), vec![1, 2, 5]);
}

#[test]
fn an_empty_directory_keeps_the_state_it_was_given() {
    let records = vec![dir(None, "top"), dir(Some(0), "empty"), file(Some(0), "f", 1)];
    let mut tree = DirectoryTree::from_records(&records).unwrap();
    tree.toggle(1);
    assert_eq!(state(&tree, 1), SelectionState::Excluded);
    assert_eq!(state(&tree, 0), SelectionState::Partial);
    tree.toggle(2);
    assert_eq!(state(&tree, 0), SelectionState::Excluded);
    assert_eq!(state(&tree, 1), SelectionState::Excluded);
}

#[test]
fn toggling_on_an_empty_tree_is_harmless() {
    let mut tree = DirectoryTree::from_records(&Vec::new()).unwrap();
    tree.toggle(0);
    assert_eq!(tree.len(), 0);
}

#[test]
fn every_directory_is_the_aggregate_of_its_children_after_each_toggle() {
    let mut seed: u64 = 0x2545_f491_4f6c_dd1d;
    let mut next = move |bound: usize| {
        seed ^= seed << 13;
        seed ^= seed >> 7;
        seed ^= seed << 17;
        (seed % bound as u64) as usize
    };
    for _ in 0..20 {
        let count = 2 + next(60);
        let mut records = vec![dir(None, "root")];
        let mut dirs = vec![0usize];
        for i in 1..count {
            let parent = dirs[next(dirs.len())];
            if next(3) == 0 {
                records.push(dir(Some(parent), "d"));
                dirs.push(i);
            } else {
                records.push(file(Some(parent), "f", i as u64));
            }
        }
        let mut tree = DirectoryTree::from_records(&records).unwrap();
        assert_consistent(&tree);
        for _ in 0..200 {
            let target = next(count + 2);
            tree.toggle(target);
            assert_consistent(&tree);
            assert_flags_reflect_leaves(&tree);
        }
    }
}
