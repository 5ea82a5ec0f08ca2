//! The summary counters shown in the status bar.

use crate::directory::state::SelectionState;
use crate::directory::tree::{DirectoryTree, Node};
use crate::ui::interface::{format_file_size, size_text};
use vstd::prelude::*;

verus! {

/// The counters of one tree and one filtered list.
#[derive(Clone, Copy, Debug, PartialEq, Eq, Structural)]
pub struct Stats {
    /// Number of files that are `Included`.
    pub included_files: usize,
    /// Number of files.
    pub total_files: usize,
    /// Bytes in the files that are `Included`, at most `u64::MAX`.
    pub included_size: u64,
    /// Length of the filtered list.
    pub filtered_count: usize,
}

/// The node is a file that is `Included`.
pub open spec fn is_included_file(node: Node) -> bool {
    !node.is_directory && node.state == SelectionState::Included
}

/// The bytes a node adds to the selection: its size when it is an `Included`
/// file with a known size, else nothing.
pub open spec fn selected_bytes(node: Node) -> nat {
    if is_included_file(node) && node.size is Some {
        node.size->0 as nat
    } else {
        0
    }
}

/// Number of files among the nodes.
pub open spec fn file_count(nodes: Seq<Node>) -> nat
    decreases nodes.len(),
{
    if nodes.len() == 0 {
        0
    } else {
        file_count(nodes.drop_last()) + (if nodes.last().is_directory {
            0nat
        } else {
            1nat
        })
    }
}

/// Number of `Included` files among the nodes.
pub open spec fn included_count(nodes: Seq<Node>) -> nat
    decreases nodes.len(),
{
    if nodes.len() == 0 {
        0
    } else {
        included_count(nodes.drop_last()) + (if is_included_file(nodes.last()) {
            1nat
        } else {
            0nat
        })
    }
}

/// Sum of the sizes of the `Included` files among the nodes.
pub open spec fn included_bytes(nodes: Seq<Node>) -> nat
    decreases nodes.len(),
{
    if nodes.len() == 0 {
        0
    } else {
        included_bytes(nodes.drop_last()) + selected_bytes(nodes.last())
    }
}

/// A byte count as a `u64`, with `u64::MAX` standing for anything larger.
pub open spec fn capped(total: nat) -> u64 {
    if total > u64::MAX {
        u64::MAX
    } else {
        total as u64
    }
}

/// Counts the files of the tree, the `Included` ones among them and their
/// bytes, and takes the length of the filtered list.
pub fn compute_stats(tree: &DirectoryTree, visible_items: &Vec<usize>) -> (stats: Stats)
    ensures
        stats.total_files == file_count(tree.nodes()),
        stats.included_files == included_count(tree.nodes()),
        stats.included_size == capped(included_bytes(tree.nodes())),
        stats.filtered_count == visible_items@.len(),
        stats.included_files <= stats.total_files <= tree.nodes().len(),
{
    let n = tree.len();
    let mut total: usize = 0;
    let mut included: usize = 0;
    let mut bytes: u64 = 0;
    let mut i: usize = 0;
    while i < n
        invariant
            n == tree.nodes().len(),
            i <= n,
            total == file_count(tree.nodes().take(i as int)),
            included == included_count(tree.nodes().take(i as int)),
            bytes == capped(included_bytes(tree.nodes().take(i as int))),
            included <= total <= i,
        decreases n - i,
    {
        let node = tree.get_node(i).unwrap();
        proof {
            let next = tree.nodes().take(i + 1);
            assert(next.drop_last() =~= tree.nodes().take(i as int));
            assert(next.last() == tree.nodes()[i as int]);
        }
        if !node.is_directory {
            total += 1;
            match node.state {
                SelectionState::Included => {
                    included += 1;
                    if let Some(size) = node.size {
                        bytes = bytes.saturating_add(size);
                    }
                },
                _ => {},
            }
        }
        i += 1;
    }
    assert(tree.nodes().take(n as int) =~= tree.nodes());
    Stats { included_files: included, total_files: total, included_size: bytes, filtered_count: visible_items.len() }
}

impl Stats {
    /// The bytes of the selection as shown on screen.
    pub fn format_size(&self) -> (r: String)
        ensures
            r@ == size_text(self.included_size as nat),
    {
        format_file_size(self.included_size)
    }
}

} // verus!
