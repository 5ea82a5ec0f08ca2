//! What the session hands to an exporter: the nodes that are `Included`,
//! each with its display path.

use crate::directory::state::SelectionState;
use crate::directory::tree::DirectoryTree;
use crate::fuzzy::filter::{display_path, get_node_display_path, names_of};
use vstd::prelude::*;

verus! {

/// One selected node.
pub struct ExportEntry {
    /// Index of the node.
    pub index: usize,
    /// Display path of the node.
    pub path: String,
    /// Whether the node is a directory. Files are what an exporter acts on;
    /// directories are listed for information.
    pub is_directory: bool,
}

/// The entry describes a node of the tree that is `Included`.
pub open spec fn is_export_of(entry: ExportEntry, tree: DirectoryTree) -> bool {
    &&& entry.index < tree.nodes().len()
    &&& tree.nodes()[entry.index as int].state == SelectionState::Included
    &&& entry.is_directory == tree.nodes()[entry.index as int].is_directory
    &&& entry.path@ == display_path(tree.shape(), names_of(tree.nodes()), entry.index as int)
}

/// The nodes that are `Included`, in increasing order of index, each with
/// its display path. A `Partial` or `Excluded` node is not listed.
pub fn included_entries(tree: &DirectoryTree) -> (r: Vec<ExportEntry>)
    requires
        tree.structured(),
    ensures
        forall|t: int| 0 <= t < r@.len() ==> is_export_of(#[trigger] r@[t], *tree),
        forall|t1: int, t2: int| 0 <= t1 < t2 < r@.len() ==> (#[trigger] r@[t1]).index < (#[trigger] r@[t2]).index,
        forall|j: int|
            0 <= j < tree.nodes().len() && (#[trigger] tree.nodes()[j]).state == SelectionState::Included
                ==> exists|t: int| 0 <= t < r@.len() && (#[trigger] r@[t]).index == j,
{
    let n = tree.len();
    let mut out: Vec<ExportEntry> = Vec::new();
    let mut i: usize = 0;
    while i < n
        invariant
            tree.structured(),
            n == tree.nodes().len(),
            i <= n,
            forall|t: int| 0 <= t < out@.len() ==> is_export_of(#[trigger] out@[t], *tree),
            forall|t: int| 0 <= t < out@.len() ==> (#[trigger] out@[t]).index < i,
            forall|t1: int, t2: int|
                0 <= t1 < t2 < out@.len() ==> (#[trigger] out@[t1]).index < (#[trigger] out@[t2]).index,
            forall|j: int|
                0 <= j < i && (#[trigger] tree.nodes()[j]).state == SelectionState::Included ==> exists|t: int|
                    0 <= t < out@.len() && (#[trigger] out@[t]).index == j,
        decreases n - i,
    {
        let node = tree.get_node(i).unwrap();
        let ghost before = out@;
        match node.state {
            SelectionState::Included => {
                let entry = ExportEntry {
                    index: i,
                    path: get_node_display_path(tree, i),
                    is_directory: node.is_directory,
                };
                out.push(entry);
                proof {
                    assert(out@[before.len() as int].index == i);
                    assert forall|j: int|
                        0 <= j < i + 1 && (#[trigger] tree.nodes()[j]).state
                            == SelectionState::Included implies exists|t: int|
                        0 <= t < out@.len() && (#[trigger] out@[t]).index == j by {
                        if j < i {
                            let t = choose|t: int| 0 <= t < before.len() && (#[trigger] before[t]).index == j;
                            assert(out@[t] == before[t]);
                        } else {
                            assert(out@[before.len() as int].index == j);
                        }
                    }
                }
            },
            _ => {},
        }
        i += 1;
    }
    out
}

} // verus!
