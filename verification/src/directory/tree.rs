//! The node store: every entry of the scanned hierarchy in one flat table,
//! addressed by a stable index, with the toggle that keeps the selection
//! flags consistent.

use crate::directory::records::{
    check_links, compute_depths, fault, file_parent_before, has_cycle, lemma_reach_finds_root,
    lemma_reaches_root_unique, missing_parent_before, parents_of, reaches_root, rooted, two_roots_before, Record,
    TreeError,
};
use crate::directory::selection::{
    consistent, kid_states, lemma_ancestor_has_kids, lemma_refresh_step, lemma_subtree_not_above,
    lemma_subtree_set_consistent, node_consistent, toggled_to, States,
};
use crate::directory::shape::{
    ancestors, below_first_kids, depth_of, in_subtree, is_ancestor, kids, lemma_child, lemma_parent,
    lemma_subtree_depth, lemma_subtree_is_node_and_kids, lemma_subtree_trans, levels_left, preorder,
    preorder_all, preorder_kids, well_formed, Link, Shape,
};
use crate::directory::state::{aggregate, SelectionState};
use vstd::prelude::*;

verus! {

/// One entry of the hierarchy.
pub struct Node {
    /// Position of the entry in the store; never changes.
    pub index: usize,
    /// The entry's own name, without the names of the directories above it.
    pub name: String,
    /// Whether the entry is a directory.
    pub is_directory: bool,
    /// Size in bytes; only files have one.
    pub size: Option<u64>,
    /// The selection flag.
    pub state: SelectionState,
    /// Index of the directory that holds the entry; `None` for the root.
    pub parent: Option<usize>,
    /// Indices of the entries held by this directory, in stored order.
    pub children: Vec<usize>,
    /// Number of directories above the entry.
    pub depth: usize,
}

impl Node {
    /// The structural part of the node.
    pub open spec fn link(&self) -> Link {
        Link {
            parent: self.parent,
            children: self.children@,
            depth: self.depth as nat,
            is_directory: self.is_directory,
        }
    }
}

/// The structure of a table of nodes.
pub open spec fn shape_of(nodes: Seq<Node>) -> Shape {
    Seq::new(nodes.len(), |i: int| nodes[i].link())
}

/// The selection flags of a table of nodes.
pub open spec fn states_of(nodes: Seq<Node>) -> States {
    Seq::new(nodes.len(), |i: int| nodes[i].state)
}

/// Table `b` holds the entries of table `a`, with nothing but selection flags
/// changed.
pub open spec fn same_entries(a: Seq<Node>, b: Seq<Node>) -> bool {
    &&& a.len() == b.len()
    &&& forall|i: int| 0 <= i < a.len() ==> #[trigger] b[i] == (Node { state: b[i].state, ..a[i] })
}

/// The nodes carry what the records say, every flag is `Included`, and a
/// directory has no size.
pub open spec fn built_from(nodes: Seq<Node>, records: Seq<Record>) -> bool {
    &&& nodes.len() == records.len()
    &&& forall|i: int|
        0 <= i < nodes.len() ==> {
            let node = #[trigger] nodes[i];
            &&& node.index == i
            &&& node.name == records[i].name
            &&& node.is_directory == records[i].is_directory
            &&& node.parent == records[i].parent
            &&& node.size == (if records[i].is_directory {
                None
            } else {
                records[i].size
            })
            &&& node.state == SelectionState::Included
        }
}

/// The depth stored in each node is the one measured for its record.
spec fn measured(nodes: Seq<Node>, depths: Seq<usize>) -> bool {
    &&& nodes.len() == depths.len()
    &&& forall|j: int| 0 <= j < nodes.len() ==> (#[trigger] nodes[j]).depth == depths[j]
}

/// The child lists hold exactly the first `upto` records, each in the list of
/// the parent it names, in increasing order.
spec fn children_listed(nodes: Seq<Node>, records: Seq<Record>, upto: int) -> bool {
    &&& forall|p: int, k: int|
        0 <= p < nodes.len() && 0 <= k < nodes[p].children@.len() ==> (#[trigger] nodes[p].children@[k]) < upto
            && records[nodes[p].children@[k] as int].parent == Some(p as usize)
    &&& forall|p: int, k1: int, k2: int|
        0 <= p < nodes.len() && 0 <= k1 < k2 < nodes[p].children@.len() ==> (#[trigger] nodes[p].children@[k1]) < (
        #[trigger] nodes[p].children@[k2])
    &&& forall|j: int|
        0 <= j < upto && (#[trigger] records[j]).parent is Some ==> nodes[records[j].parent->0 as int].children@.contains(
            j as usize,
        )
}

/// One node per record, with no child listed yet.
fn bare_nodes(records: &Vec<Record>, depths: &Vec<usize>) -> (nodes: Vec<Node>)
    requires
        depths@.len() == records@.len(),
    ensures
        built_from(nodes@, records@),
        measured(nodes@, depths@),
        children_listed(nodes@, records@, 0),
{
    let n = records.len();
    let mut nodes: Vec<Node> = Vec::new();
    let mut i: usize = 0;
    while i < n
        invariant
            n == records@.len(),
            depths@.len() == n,
            i <= n,
            nodes@.len() == i,
            built_from(nodes@, records@.take(i as int)),
            forall|j: int| 0 <= j < i ==> (#[trigger] nodes@[j]).depth == depths@[j] && nodes@[j].children@.len() == 0,
        decreases n - i,
    {
        let rec = &records[i];
        let size = if rec.is_directory {
            None
        } else {
            rec.size
        };
        nodes.push(
            Node {
                index: i,
                name: rec.name.clone(),
                is_directory: rec.is_directory,
                size,
                state: SelectionState::Included,
                parent: rec.parent,
                children: Vec::new(),
                depth: depths[i],
            },
        );
        i += 1;
    }
    assert(records@.take(n as int) =~= records@);
    nodes
}

/// Enters every record into the child list of the parent it names.
fn link_children(nodes: &mut Vec<Node>, records: &Vec<Record>)
    requires
        !missing_parent_before(records@, records@.len() as int),
        built_from(old(nodes)@, records@),
        children_listed(old(nodes)@, records@, 0),
    ensures
        built_from(final(nodes)@, records@),
        children_listed(final(nodes)@, records@, records@.len() as int),
        forall|j: int| 0 <= j < records@.len() ==> (#[trigger] final(nodes)@[j]).depth == old(nodes)@[j].depth,
{
    let n = records.len();
    let mut i: usize = 0;
    while i < n
        invariant
            n == records@.len(),
            i <= n,
            !missing_parent_before(records@, records@.len() as int),
            built_from(nodes@, records@),
            children_listed(nodes@, records@, i as int),
            forall|j: int| 0 <= j < n ==> (#[trigger] nodes@[j]).depth == old(nodes)@[j].depth,
        decreases n - i,
    {
        if let Some(p) = records[i].parent {
            assert(p < n) by {
                assert(records@[i as int].parent is Some);
            }
            let ghost before = nodes@;
            nodes[p].children.push(i);
            proof {
                assert(nodes@[p as int].children@ == before[p as int].children@.push(i));
                assert forall|j: int| 0 <= j < i + 1 && (#[trigger] records@[j]).parent is Some implies nodes@[records@[j].parent->0 as int].children@.contains(
                j as usize) by {
                    let q = records@[j].parent->0 as int;
                    if j < i {
                        let w = choose|w: int|
                            0 <= w < before[q].children@.len() && before[q].children@[w] == j as usize;
                        assert(nodes@[q].children@[w] == j as usize);
                    } else {
                        assert(nodes@[q].children@[before[q].children@.len() as int] == j as usize);
                    }
                }
                assert forall|q: int, k: int| 0 <= q < nodes@.len() && 0 <= k < nodes@[q].children@.len() implies (
                #[trigger] nodes@[q].children@[k]) < i + 1 && records@[nodes@[q].children@[k] as int].parent == Some(
                    q as usize,
                ) by {
                    if q != p || k < before[q].children@.len() {
                        assert(nodes@[q].children@[k] == before[q].children@[k]);
                    }
                }
                assert forall|q: int, k1: int, k2: int|
                    0 <= q < nodes@.len() && 0 <= k1 < k2 < nodes@[q].children@.len() implies (
                #[trigger] nodes@[q].children@[k1]) < (#[trigger] nodes@[q].children@[k2]) by {
                    assert(nodes@[q].children@[k1] == before[q].children@[k1]);
                    if q != p || k2 < before[q].children@.len() {
                        assert(nodes@[q].children@[k2] == before[q].children@[k2]);
                    }
                }
            }
        }
        i += 1;
    }
}

/// Node `i` of a table built from checked records fits into the tree.
proof fn lemma_built_link(nodes: Seq<Node>, records: Seq<Record>, depths: Seq<usize>, root: Option<usize>, i: int)
    requires
        fault(records) is None,
        built_from(nodes, records),
        measured(nodes, depths),
        children_listed(nodes, records, records.len() as int),
        forall|j: int|
            0 <= j < records.len() ==> (#[trigger] depths[j]) < records.len() && reaches_root(
                parents_of(records),
                j,
                depths[j] as nat,
            ),
        root is Some,
        root->0 < records.len(),
        records[root->0 as int].parent is None,
        0 <= i < nodes.len(),
    ensures
        crate::directory::shape::link_ok(shape_of(nodes), root, i),
{
    let shape = shape_of(nodes);
    let parents = parents_of(records);
    let node = nodes[i];
    assert(node.depth == depths[i]);
    assert(reaches_root(parents, i, node.depth as nat));
    match records[i].parent {
        None => {
            let r = root->0 as int;
            if r < i {
                assert(records[r].parent is None && records[i].parent is None);
            }
            if i < r {
                assert(records[i].parent is None && records[r].parent is None);
            }
        },
        Some(p) => {
            assert(records[i].parent is Some);
            assert(nodes[p as int].depth == depths[p as int]);
            assert(reaches_root(parents, p as int, nodes[p as int].depth as nat));
            lemma_reaches_root_unique(parents, p as int, (node.depth - 1) as nat, nodes[p as int].depth as nat);
        },
    }
    if node.children@.len() > 0 {
        let c = node.children@[0] as int;
        assert(records[c].parent is Some);
    }
}

/// A table built from checked records is a tree whose flags are consistent.
proof fn lemma_built_tree(nodes: Seq<Node>, records: Seq<Record>, depths: Seq<usize>, root: Option<usize>)
    requires
        !missing_parent_before(records, records.len() as int),
        !file_parent_before(records, records.len() as int),
        !two_roots_before(records, records.len() as int),
        !has_cycle(records),
        records.len() <= usize::MAX,
        built_from(nodes, records),
        measured(nodes, depths),
        children_listed(nodes, records, records.len() as int),
        forall|j: int|
            0 <= j < records.len() ==> (#[trigger] depths[j]) < records.len() && reaches_root(
                parents_of(records),
                j,
                depths[j] as nat,
            ),
        match root {
            Some(r) => r < records.len() && records[r as int].parent is None,
            None => forall|i: int| 0 <= i < records.len() ==> (#[trigger] records[i]).parent is Some,
        },
    ensures
        fault(records) is None,
        well_formed(shape_of(nodes), root),
        consistent(shape_of(nodes), states_of(nodes)),
        forall|i: int|
            0 <= i < nodes.len() ==> (#[trigger] nodes[i]).index == i && (nodes[i].is_directory ==> nodes[i].size
                is None),
{
    let shape = shape_of(nodes);
    let parents = parents_of(records);
    if root is None && records.len() > 0 {
        assert(rooted(records, 0));
        let s = choose|s: nat| s < records.len() && #[trigger] reaches_root(parents, 0, s);
        let r = lemma_reach_finds_root(parents, 0, s);
        assert(records[r].parent is None);
    }
    assert forall|i: int| 0 <= i < shape.len() implies #[trigger] crate::directory::shape::link_ok(
        shape,
        root,
        i,
    ) by {
        lemma_built_link(nodes, records, depths, root, i);
    }
    assert forall|d: int| 0 <= d < shape.len() implies #[trigger] node_consistent(shape, states_of(nodes), d) by {
        let below = kid_states(shape, states_of(nodes), d);
        assert forall|k: int| 0 <= k < below.len() implies below[k] == SelectionState::Included by {
            assert(crate::directory::shape::link_ok(shape, root, d));
            let c = shape[d].children[k] as int;
            assert(nodes[c].state == SelectionState::Included);
        }
    }
}

/// The store of all nodes of one hierarchy.
pub struct DirectoryTree {
    nodes: Vec<Node>,
    root: Option<usize>,
}

impl DirectoryTree {
    /// The table of nodes, by index.
    pub closed spec fn nodes(&self) -> Seq<Node> {
        self.nodes@
    }

    /// The index of the root; `None` for a store without nodes.
    pub closed spec fn root(&self) -> Option<usize> {
        self.root
    }

    /// The structure of the tree.
    pub open spec fn shape(&self) -> Shape {
        shape_of(self.nodes())
    }

    /// The selection flags of the tree.
    pub open spec fn states(&self) -> States {
        states_of(self.nodes())
    }

    /// The nodes form one tree, each knows its own index, and no directory
    /// carries a size.
    pub open spec fn structured(&self) -> bool {
        &&& well_formed(self.shape(), self.root())
        &&& forall|i: int|
            0 <= i < self.nodes().len() ==> (#[trigger] self.nodes()[i]).index == i && (self.nodes()[i].is_directory
                ==> self.nodes()[i].size is None)
    }

    /// The store is a tree whose selection flags are consistent.
    pub open spec fn wf(&self) -> bool {
        &&& self.structured()
        &&& consistent(self.shape(), self.states())
    }

    /// Builds the store from the records of a scan, every entry `Included`.
    /// The records must describe one tree: each parent index names a directory
    /// among the records, at most one record is without parent, and every
    /// record arrives at that root by following parent links. Children are
    /// stored in the order of their records.
    pub fn from_records(records: &Vec<Record>) -> (r: Result<DirectoryTree, TreeError>)
        ensures
            match r {
                Ok(tree) => fault(records@) is None && tree.wf() && built_from(tree.nodes(), records@),
                Err(e) => fault(records@) == Some(e),
            },
    {
        let root = match check_links(records) {
            Ok(root) => root,
            Err(e) => {
                return Err(e);
            },
        };
        let depths = match compute_depths(records) {
            Ok(depths) => depths,
            Err(e) => {
                return Err(e);
            },
        };
        let mut nodes = bare_nodes(records, &depths);
        link_children(&mut nodes, records);
        let tree = DirectoryTree { nodes, root };
        proof {
            lemma_built_tree(tree.nodes(), records@, depths@, root);
        }
        Ok(tree)
    }

    /// Number of nodes.
    pub fn len(&self) -> (n: usize)
        ensures
            n == self.nodes().len(),
    {
        self.nodes.len()
    }

    /// Index of the root, if the store has any node.
    pub fn root_index(&self) -> (r: Option<usize>)
        ensures
            r == self.root(),
    {
        self.root
    }

    /// The node at `index`, or `None` when the index is out of range.
    pub fn get_node(&self, index: usize) -> (r: Option<&Node>)
        ensures
            r == (if index < self.nodes().len() {
                Some(&self.nodes()[index as int])
            } else {
                None
            }),
    {
        if index < self.nodes.len() {
            Some(&self.nodes[index])
        } else {
            None
        }
    }

    /// The children of the node at `index`, in stored order; none when the
    /// index is out of range.
    pub fn children_of(&self, index: usize) -> (r: Vec<usize>)
        ensures
            r@ == kids(self.shape(), index as int),
    {
        let mut out: Vec<usize> = Vec::new();
        if index < self.nodes.len() {
            let count = self.nodes[index].children.len();
            let mut k: usize = 0;
            while k < count
                invariant
                    index < self.nodes().len(),
                    count == self.nodes()[index as int].children@.len(),
                    k <= count,
                    out@ == self.nodes()[index as int].children@.take(k as int),
                decreases count - k,
            {
                out.push(self.nodes[index].children[k]);
                k += 1;
                assert(out@ =~= self.nodes()[index as int].children@.take(k as int));
            }
            assert(out@ =~= self.nodes()[index as int].children@);
        }
        out
    }

    /// The ancestors of the node at `index`, nearest first, ending at the
    /// root; none when the index is out of range.
    pub fn ancestors_of(&self, index: usize) -> (r: Vec<usize>)
        requires
            self.structured(),
        ensures
            r@ == ancestors(self.shape(), index as int),
    {
        let mut out: Vec<usize> = Vec::new();
        if index >= self.nodes.len() {
            return out;
        }
        let mut cur: usize = index;
        let mut up: Option<usize> = self.nodes[cur].parent;
        proof {
            lemma_parent(self.shape(), self.root(), cur as int);
        }
        while up.is_some()
            invariant
                self.structured(),
                cur < self.nodes().len(),
                up == self.nodes()[cur as int].parent,
                out@ + ancestors(self.shape(), cur as int) == ancestors(self.shape(), index as int),
            decreases depth_of(self.shape(), cur as int),
        {
            let p = up.unwrap();
            proof {
                lemma_parent(self.shape(), self.root(), cur as int);
                assert(ancestors(self.shape(), cur as int) == seq![p] + ancestors(self.shape(), p as int));
                assert(out@.push(p) + ancestors(self.shape(), p as int) =~= out@ + ancestors(
                    self.shape(),
                    cur as int,
                ));
            }
            out.push(p);
            cur = p;
            up = self.nodes[cur].parent;
        }
        proof {
            lemma_parent(self.shape(), self.root(), cur as int);
            assert(ancestors(self.shape(), cur as int) =~= Seq::<usize>::empty());
            assert(out@ =~= out@ + ancestors(self.shape(), cur as int));
        }
        out
    }

    /// Appends the subtree of node `i`, in pre-order, to `out`.
    fn collect_preorder(&self, i: usize, out: &mut Vec<usize>)
        requires
            self.structured(),
            i < self.nodes().len(),
        ensures
            final(out)@ == old(out)@ + preorder(self.shape(), i as int),
        decreases levels_left(self.shape(), i as int),
    {
        out.push(i);
        let count = self.nodes[i].children.len();
        let mut k: usize = 0;
        proof {
            assert(out@ + preorder_kids(self.shape(), i as int, 0) =~= old(out)@ + preorder(self.shape(), i as int));
        }
        while k < count
            invariant
                self.structured(),
                i < self.nodes().len(),
                k <= count,
                count == self.shape()[i as int].children.len(),
                out@ + preorder_kids(self.shape(), i as int, k as int) == old(out)@ + preorder(
                    self.shape(),
                    i as int,
                ),
            decreases count - k,
        {
            let c = self.nodes[i].children[k];
            let ghost before = out@;
            proof {
                lemma_child(self.shape(), self.root(), i as int, k as int);
            }
            self.collect_preorder(c, out);
            proof {
                assert(out@ + preorder_kids(self.shape(), i as int, k + 1) =~= before + preorder_kids(
                    self.shape(),
                    i as int,
                    k as int,
                ));
            }
            k += 1;
        }
        proof {
            assert(out@ + preorder_kids(self.shape(), i as int, k as int) =~= out@);
        }
    }

    /// Every node index in pre-order: a node before its children, children in
    /// stored order.
    pub fn preorder(&self) -> (r: Vec<usize>)
        requires
            self.structured(),
        ensures
            r@ == preorder_all(self.shape(), self.root()),
    {
        let mut out: Vec<usize> = Vec::new();
        if let Some(r) = self.root {
            self.collect_preorder(r, &mut out);
            assert(out@ =~= preorder(self.shape(), r as int));
        }
        out
    }

    /// Gives the flag `s` to node `i` and to every node below it.
    fn set_subtree(&mut self, i: usize, s: SelectionState)
        requires
            old(self).structured(),
            i < old(self).nodes().len(),
        ensures
            final(self).structured(),
            final(self).root() == old(self).root(),
            final(self).shape() == old(self).shape(),
            same_entries(old(self).nodes(), final(self).nodes()),
            forall|j: int|
                0 <= j < old(self).nodes().len() ==> #[trigger] final(self).states()[j] == (if in_subtree(
                    old(self).shape(),
                    i as int,
                    j,
                ) {
                    s
                } else {
                    old(self).states()[j]
                }),
        decreases levels_left(old(self).shape(), i as int),
    {
        self.nodes[i].state = s;
        proof {
            assert(self.shape() =~= old(self).shape());
        }
        let count = self.nodes[i].children.len();
        let mut k: usize = 0;
        while k < count
            invariant
                old(self).structured(),
                self.structured(),
                i < self.nodes().len(),
                k <= count,
                count == old(self).shape()[i as int].children.len(),
                self.root() == old(self).root(),
                self.shape() == old(self).shape(),
                same_entries(old(self).nodes(), self.nodes()),
                forall|j: int|
                    0 <= j < old(self).nodes().len() ==> #[trigger] self.states()[j] == (if j == i
                        || below_first_kids(old(self).shape(), i as int, k as int, j) {
                        s
                    } else {
                        old(self).states()[j]
                    }),
            decreases count - k,
        {
            let c = self.nodes[i].children[k];
            proof {
                lemma_child(self.shape(), self.root(), i as int, k as int);
            }
            self.set_subtree(c, s);
            k += 1;
        }
        proof {
            assert forall|j: int| 0 <= j < old(self).nodes().len() implies #[trigger] self.states()[j] == (
            if in_subtree(old(self).shape(), i as int, j) {
                s
            } else {
                old(self).states()[j]
            }) by {
                lemma_subtree_is_node_and_kids(old(self).shape(), old(self).root(), i as int, j);
            }
        }
    }

    /// The aggregate of the flags of the children of node `a`.
    fn aggregate_children(&self, a: usize) -> (r: SelectionState)
        requires
            self.structured(),
            a < self.nodes().len(),
        ensures
            r == aggregate(kid_states(self.shape(), self.states(), a as int)),
    {
        let ghost below = kid_states(self.shape(), self.states(), a as int);
        let count = self.nodes[a].children.len();
        let mut all_included = true;
        let mut all_excluded = true;
        let mut k: usize = 0;
        while k < count
            invariant
                self.structured(),
                a < self.nodes().len(),
                k <= count,
                count == below.len(),
                below == kid_states(self.shape(), self.states(), a as int),
                all_included <==> forall|t: int| 0 <= t < k ==> below[t] == SelectionState::Included,
                all_excluded <==> forall|t: int| 0 <= t < k ==> below[t] == SelectionState::Excluded,
            decreases count - k,
        {
            let c = self.nodes[a].children[k];
            proof {
                lemma_child(self.shape(), self.root(), a as int, k as int);
                assert(below[k as int] == self.nodes()[c as int].state);
            }
            match self.nodes[c].state {
                SelectionState::Included => {
                    all_excluded = false;
                },
                SelectionState::Excluded => {
                    all_included = false;
                },
                SelectionState::Partial => {
                    all_included = false;
                    all_excluded = false;
                },
            }
            k += 1;
        }
        if all_included {
            SelectionState::Included
        } else if all_excluded {
            SelectionState::Excluded
        } else {
            SelectionState::Partial
        }
    }

    /// Recomputes the flag of every node strictly above `i`, nearest first.
    fn refresh_ancestors(&mut self, i: usize)
        requires
            old(self).structured(),
            i < old(self).nodes().len(),
            forall|d: int|
                0 <= d < old(self).nodes().len() && !is_ancestor(old(self).shape(), d, i as int)
                    ==> #[trigger] node_consistent(old(self).shape(), old(self).states(), d),
        ensures
            final(self).wf(),
            final(self).root() == old(self).root(),
            final(self).shape() == old(self).shape(),
            same_entries(old(self).nodes(), final(self).nodes()),
            forall|j: int|
                0 <= j < old(self).nodes().len() && !is_ancestor(old(self).shape(), j, i as int)
                    ==> #[trigger] final(self).states()[j] == old(self).states()[j],
    {
        let mut cur: Option<usize> = self.nodes[i].parent;
        proof {
            lemma_parent(self.shape(), self.root(), i as int);
            assert(in_subtree(self.shape(), i as int, i as int));
            if cur is Some {
                assert(in_subtree(self.shape(), cur->0 as int, cur->0 as int));
            }
        }
        while cur.is_some()
            invariant
                self.structured(),
                i < self.nodes().len(),
                self.root() == old(self).root(),
                self.shape() == old(self).shape(),
                same_entries(old(self).nodes(), self.nodes()),
                match cur {
                    None => consistent(self.shape(), self.states()),
                    Some(a) => {
                        &&& a < self.nodes().len()
                        &&& is_ancestor(self.shape(), a as int, i as int)
                        &&& forall|d: int|
                            0 <= d < self.nodes().len() && !in_subtree(self.shape(), d, a as int)
                                ==> #[trigger] node_consistent(self.shape(), self.states(), d)
                    },
                },
                forall|j: int|
                    0 <= j < old(self).nodes().len() && !is_ancestor(old(self).shape(), j, i as int)
                        ==> #[trigger] self.states()[j] == old(self).states()[j],
            decreases
                    (match cur {
                        Some(a) => depth_of(self.shape(), a as int) + 1,
                        None => 0,
                    }),
        {
            let a = cur.unwrap();
            let s = self.aggregate_children(a);
            let ghost before = self.states();
            proof {
                lemma_ancestor_has_kids(self.shape(), self.root(), a as int, i as int);
                lemma_refresh_step(self.shape(), self.root(), before, before.update(a as int, s), a as int);
                lemma_parent(self.shape(), self.root(), a as int);
            }
            self.nodes[a].state = s;
            cur = self.nodes[a].parent;
            proof {
                assert(self.shape() =~= old(self).shape());
                assert(self.states() =~= before.update(a as int, s));
                if let Some(p) = cur {
                    assert(in_subtree(self.shape(), p as int, p as int));
                    assert(in_subtree(self.shape(), p as int, a as int));
                    lemma_subtree_trans(self.shape(), p as int, a as int, i as int);
                    lemma_subtree_depth(self.shape(), a as int, i as int);
                }
            }
        }
    }

    /// Toggles the node at `index`: an `Excluded` node becomes `Included`, an
    /// `Included` or `Partial` one becomes `Excluded`; everything below the
    /// node follows it, and every directory above it is recomputed from its
    /// children. An index out of range changes nothing.
    pub fn toggle(&mut self, index: usize)
        requires
            old(self).wf(),
        ensures
            final(self).wf(),
            final(self).root() == old(self).root(),
            final(self).shape() == old(self).shape(),
            same_entries(old(self).nodes(), final(self).nodes()),
            index < old(self).nodes().len() ==> toggled_to(
                old(self).shape(),
                old(self).states(),
                final(self).states(),
                index as int,
            ),
            index >= old(self).nodes().len() ==> final(self).nodes() == old(self).nodes(),
    {
        if index >= self.nodes.len() {
            return ;
        }
        let target = self.nodes[index].state.toggled();
        self.set_subtree(index, target);
        let ghost middle = self.states();
        proof {
            lemma_subtree_set_consistent(
                old(self).shape(),
                old(self).root(),
                old(self).states(),
                middle,
                index as int,
                target,
            );
        }
        self.refresh_ancestors(index);
        proof {
            let shape = old(self).shape();
            let after = self.states();
            assert forall|j: int| 0 <= j < shape.len() && in_subtree(shape, index as int, j) implies #[trigger] after[j]
                == old(self).states()[index as int].toggled_spec() by {
                lemma_subtree_not_above(shape, index as int, j);
                assert(middle[j] == target);
            }
            assert forall|j: int|
                0 <= j < shape.len() && !in_subtree(shape, index as int, j) && !in_subtree(
                    shape,
                    j,
                    index as int,
                ) implies #[trigger] after[j] == old(self).states()[j] by {
                assert(middle[j] == old(self).states()[j]);
            }
            assert forall|j: int| 0 <= j < shape.len() && is_ancestor(shape, j, index as int) implies #[trigger] after[j]
                == aggregate(kid_states(shape, after, j)) by {
                lemma_ancestor_has_kids(shape, old(self).root(), j, index as int);
                assert(node_consistent(shape, after, j));
            }
        }
    }
}

} // verus!
