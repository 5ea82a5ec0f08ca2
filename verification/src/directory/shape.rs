//! The shape of a tree, apart from the selection flags stored in it: parent
//! links, child lists and depths, with the facts about subtrees and pre-order
//! that the selection engine and the filter rest on.

use vstd::prelude::*;
use vstd::seq_lib::{lemma_no_dup_in_concat, lemma_seq_concat_contains_all_elements};

verus! {

/// The structural part of one node.
pub struct Link {
    /// Index of the parent; `None` for the root.
    pub parent: Option<usize>,
    /// Indices of the children, in stored order.
    pub children: Seq<usize>,
    /// Number of parent links between this node and the root.
    pub depth: nat,
    /// Whether the node is a directory.
    pub is_directory: bool,
}

/// A tree's structure: the link of every node, by index.
pub type Shape = Seq<Link>;

/// Node `i` fits into the tree: its parent is a directory one level up that
/// lists it, each child names it as parent, only directories have children,
/// and children are stored in increasing index order.
pub open spec fn link_ok(shape: Shape, root: Option<usize>, i: int) -> bool {
    let l = shape[i];
    &&& l.depth < shape.len()
    &&& match l.parent {
        None => root == Some(i as usize) && l.depth == 0,
        Some(p) => {
            &&& p < shape.len()
            &&& shape[p as int].is_directory
            &&& l.depth == shape[p as int].depth + 1
            &&& shape[p as int].children.contains(i as usize)
        },
    }
    &&& (l.children.len() > 0 ==> l.is_directory)
    &&& forall|k: int|
        0 <= k < l.children.len() ==> (#[trigger] l.children[k]) < shape.len() && shape[l.children[k] as int].parent
            == Some(i as usize)
    &&& forall|k1: int, k2: int| 0 <= k1 < k2 < l.children.len() ==> l.children[k1] < l.children[k2]
}

/// The links form one tree below `root` (no tree at all when there is no node).
pub open spec fn well_formed(shape: Shape, root: Option<usize>) -> bool {
    &&& shape.len() <= usize::MAX
    &&& match root {
        None => shape.len() == 0,
        Some(r) => r < shape.len() && shape[r as int].parent is None,
    }
    &&& forall|i: int| 0 <= i < shape.len() ==> #[trigger] link_ok(shape, root, i)
}

/// Depth of node `j`; zero outside the tree.
pub open spec fn depth_of(shape: Shape, j: int) -> nat {
    if 0 <= j < shape.len() {
        shape[j].depth
    } else {
        0
    }
}

/// The parent of `j`, when `j` has one that lies in the tree and is less deep.
/// In a well-formed tree that is every parent link.
pub open spec fn parent_of(shape: Shape, j: int) -> Option<int> {
    if 0 <= j < shape.len() {
        match shape[j].parent {
            Some(p) => if p < shape.len() && shape[p as int].depth < shape[j].depth {
                Some(p as int)
            } else {
                None
            },
            None => None,
        }
    } else {
        None
    }
}

/// The child list of `i`; empty outside the tree.
pub open spec fn kids(shape: Shape, i: int) -> Seq<usize> {
    if 0 <= i < shape.len() {
        shape[i].children
    } else {
        Seq::empty()
    }
}

/// `j` is `a` or lies below `a`.
pub open spec fn in_subtree(shape: Shape, a: int, j: int) -> bool
    decreases depth_of(shape, j),
{
    j == a || match parent_of(shape, j) {
        Some(p) => in_subtree(shape, a, p),
        None => false,
    }
}

/// `a` lies strictly above `j`.
pub open spec fn is_ancestor(shape: Shape, a: int, j: int) -> bool {
    a != j && in_subtree(shape, a, j)
}

/// The ancestors of `j`, nearest first, ending at the root.
pub open spec fn ancestors(shape: Shape, j: int) -> Seq<usize>
    decreases depth_of(shape, j),
{
    match parent_of(shape, j) {
        Some(p) => seq![p as usize] + ancestors(shape, p),
        None => Seq::empty(),
    }
}

/// Levels that remain below node `i` before the depth bound of the tree is hit.
pub open spec fn levels_left(shape: Shape, i: int) -> nat {
    if 0 <= i < shape.len() && shape[i].depth < shape.len() {
        (shape.len() - shape[i].depth) as nat
    } else {
        0
    }
}

/// The subtree of `i` in pre-order: `i` itself, then the subtree of each child
/// in stored order.
pub open spec fn preorder(shape: Shape, i: int) -> Seq<usize>
    decreases levels_left(shape, i), kids(shape, i).len() + 1,
{
    seq![i as usize] + preorder_kids(shape, i, 0)
}

/// The subtrees of the children of `i` from the `k`-th on, each in pre-order,
/// one after the other. A child is descended into when it lies a level deeper,
/// as every child of a well-formed tree does.
pub open spec fn preorder_kids(shape: Shape, i: int, k: int) -> Seq<usize>
    decreases levels_left(shape, i), kids(shape, i).len() - k,
{
    let c = kids(shape, i);
    if 0 <= k < c.len() {
        let first = if levels_left(shape, c[k] as int) < levels_left(shape, i) {
            preorder(shape, c[k] as int)
        } else {
            Seq::empty()
        };
        first + preorder_kids(shape, i, k + 1)
    } else {
        Seq::empty()
    }
}

/// `j` lies in the subtree of one of the first `k` children of `i`.
pub open spec fn below_first_kids(shape: Shape, i: int, k: int, j: int) -> bool
    decreases k,
{
    if k <= 0 {
        false
    } else {
        in_subtree(shape, kids(shape, i)[k - 1] as int, j) || below_first_kids(shape, i, k - 1, j)
    }
}

/// The whole tree in pre-order; empty when there is no root.
pub open spec fn preorder_all(shape: Shape, root: Option<usize>) -> Seq<usize> {
    match root {
        Some(r) => preorder(shape, r as int),
        None => Seq::empty(),
    }
}

/// In a well-formed tree the `k`-th child of `a` is a node one level below `a`
/// whose parent is `a`.
pub proof fn lemma_child(shape: Shape, root: Option<usize>, a: int, k: int)
    requires
        well_formed(shape, root),
        0 <= a < shape.len(),
        0 <= k < shape[a].children.len(),
    ensures
        shape[a].children[k] < shape.len(),
        parent_of(shape, shape[a].children[k] as int) == Some(a),
        depth_of(shape, shape[a].children[k] as int) == depth_of(shape, a) + 1,
        levels_left(shape, shape[a].children[k] as int) < levels_left(shape, a),
        in_subtree(shape, a, shape[a].children[k] as int),
        shape[a].children[k] != a,
{
    let c = shape[a].children[k] as int;
    assert(link_ok(shape, root, a));
    assert(link_ok(shape, root, c));
    assert(in_subtree(shape, a, a));
}

/// In a well-formed tree every parent link is the parent in the sense of
/// `parent_of`, and a node without one is the root.
pub proof fn lemma_parent(shape: Shape, root: Option<usize>, j: int)
    requires
        well_formed(shape, root),
        0 <= j < shape.len(),
    ensures
        match shape[j].parent {
            Some(p) => parent_of(shape, j) == Some(p as int) && shape[p as int].children.contains(j as usize)
                && p != j,
            None => parent_of(shape, j) is None && root == Some(j as usize),
        },
{
    assert(link_ok(shape, root, j));
}

/// A node of a subtree lies in the tree, at least as deep as the subtree's
/// top, and only the top lies at the top's depth.
pub proof fn lemma_subtree_depth(shape: Shape, a: int, j: int)
    requires
        0 <= a < shape.len(),
        in_subtree(shape, a, j),
    ensures
        0 <= j < shape.len(),
        depth_of(shape, a) <= depth_of(shape, j),
        depth_of(shape, a) == depth_of(shape, j) ==> a == j,
    decreases depth_of(shape, j),
{
    if j != a {
        let p = parent_of(shape, j)->0;
        lemma_subtree_depth(shape, a, p);
    }
}

/// Lying below is transitive.
pub proof fn lemma_subtree_trans(shape: Shape, a: int, b: int, j: int)
    requires
        in_subtree(shape, a, b),
        in_subtree(shape, b, j),
    ensures
        in_subtree(shape, a, j),
    decreases depth_of(shape, j),
{
    if j != b {
        let p = parent_of(shape, j)->0;
        lemma_subtree_trans(shape, a, b, p);
    }
}

/// A node strictly below `a` lies in the subtree of one of the children of `a`.
pub proof fn lemma_subtree_via_child(shape: Shape, root: Option<usize>, a: int, j: int) -> (k: int)
    requires
        well_formed(shape, root),
        0 <= a < shape.len(),
        in_subtree(shape, a, j),
        j != a,
    ensures
        0 <= k < shape[a].children.len(),
        in_subtree(shape, shape[a].children[k] as int, j),
    decreases depth_of(shape, j),
{
    let p = parent_of(shape, j)->0;
    lemma_parent(shape, root, j);
    if p == a {
        let k = choose|k: int| 0 <= k < shape[a].children.len() && shape[a].children[k] == j as usize;
        assert(in_subtree(shape, j, j));
        k
    } else {
        lemma_subtree_via_child(shape, root, a, p)
    }
}

/// Of two nodes above a common node, the less deep one lies above the other.
pub proof fn lemma_ancestors_comparable(shape: Shape, a: int, b: int, j: int)
    requires
        0 <= a < shape.len(),
        0 <= b < shape.len(),
        in_subtree(shape, a, j),
        in_subtree(shape, b, j),
        depth_of(shape, a) <= depth_of(shape, b),
    ensures
        in_subtree(shape, a, b),
    decreases depth_of(shape, j),
{
    if j == b {
    } else if j == a {
        lemma_subtree_depth(shape, b, a);
    } else {
        let p = parent_of(shape, j)->0;
        lemma_ancestors_comparable(shape, a, b, p);
    }
}

/// The subtrees of two different children of one node have no node in common.
pub proof fn lemma_siblings_disjoint(shape: Shape, root: Option<usize>, a: int, k1: int, k2: int, j: int)
    requires
        well_formed(shape, root),
        0 <= a < shape.len(),
        0 <= k1 < shape[a].children.len(),
        0 <= k2 < shape[a].children.len(),
        in_subtree(shape, shape[a].children[k1] as int, j),
        in_subtree(shape, shape[a].children[k2] as int, j),
    ensures
        k1 == k2,
{
    let c1 = shape[a].children[k1] as int;
    let c2 = shape[a].children[k2] as int;
    lemma_child(shape, root, a, k1);
    lemma_child(shape, root, a, k2);
    lemma_ancestors_comparable(shape, c1, c2, j);
    lemma_subtree_depth(shape, c1, c2);
    assert(link_ok(shape, root, a));
}

/// Every node lies in the subtree of the root.
pub proof fn lemma_root_covers(shape: Shape, root: Option<usize>, j: int)
    requires
        well_formed(shape, root),
        0 <= j < shape.len(),
    ensures
        root is Some,
        in_subtree(shape, root->0 as int, j),
    decreases depth_of(shape, j),
{
    lemma_parent(shape, root, j);
    match shape[j].parent {
        None => {},
        Some(p) => {
            lemma_root_covers(shape, root, p as int);
        },
    }
}

/// The children's part of a pre-order listing holds the listing of each child
/// from the `k0`-th on.
pub proof fn lemma_kids_include(shape: Shape, root: Option<usize>, a: int, k0: int, k: int, x: usize)
    requires
        well_formed(shape, root),
        0 <= a < shape.len(),
        0 <= k0 <= k < shape[a].children.len(),
        preorder(shape, shape[a].children[k] as int).contains(x),
    ensures
        preorder_kids(shape, a, k0).contains(x),
    decreases k - k0,
{
    lemma_child(shape, root, a, k0);
    let first = preorder(shape, shape[a].children[k0] as int);
    let rest = preorder_kids(shape, a, k0 + 1);
    assert(preorder_kids(shape, a, k0) == first + rest);
    lemma_seq_concat_contains_all_elements(first, rest, x);
    if k0 < k {
        lemma_kids_include(shape, root, a, k0 + 1, k, x);
    }
}

/// The pre-order listing of a subtree holds every node of the subtree.
pub proof fn lemma_preorder_covers(shape: Shape, root: Option<usize>, a: int, j: int)
    requires
        well_formed(shape, root),
        0 <= a < shape.len(),
        in_subtree(shape, a, j),
    ensures
        preorder(shape, a).contains(j as usize),
    decreases levels_left(shape, a),
{
    let head = seq![a as usize];
    let rest = preorder_kids(shape, a, 0);
    lemma_seq_concat_contains_all_elements(head, rest, j as usize);
    lemma_subtree_depth(shape, a, j);
    if j == a {
        assert(head[0] == a as usize);
    } else {
        let k = lemma_subtree_via_child(shape, root, a, j);
        lemma_child(shape, root, a, k);
        lemma_preorder_covers(shape, root, shape[a].children[k] as int, j);
        lemma_kids_include(shape, root, a, 0, k, j as usize);
    }
}

/// The pre-order listing of a subtree holds only nodes of the subtree.
pub proof fn lemma_preorder_within(shape: Shape, root: Option<usize>, a: int, x: usize)
    requires
        well_formed(shape, root),
        0 <= a < shape.len(),
        preorder(shape, a).contains(x),
    ensures
        in_subtree(shape, a, x as int),
    decreases levels_left(shape, a), kids(shape, a).len() + 1,
{
    let head = seq![a as usize];
    let rest = preorder_kids(shape, a, 0);
    lemma_seq_concat_contains_all_elements(head, rest, x);
    if head.contains(x) {
        assert(x == a as usize);
    } else {
        let k = lemma_preorder_kids_within(shape, root, a, 0, x);
        lemma_child(shape, root, a, k);
        lemma_subtree_trans(shape, a, shape[a].children[k] as int, x as int);
    }
}

/// A node in the children's part of a pre-order listing lies in the subtree of
/// one of the children taken.
pub proof fn lemma_preorder_kids_within(shape: Shape, root: Option<usize>, a: int, k0: int, x: usize) -> (k: int)
    requires
        well_formed(shape, root),
        0 <= a < shape.len(),
        0 <= k0,
        preorder_kids(shape, a, k0).contains(x),
    ensures
        k0 <= k < shape[a].children.len(),
        in_subtree(shape, shape[a].children[k] as int, x as int),
    decreases levels_left(shape, a), kids(shape, a).len() - k0,
{
    lemma_child(shape, root, a, k0);
    let c = shape[a].children[k0] as int;
    let first = preorder(shape, c);
    let rest = preorder_kids(shape, a, k0 + 1);
    assert(preorder_kids(shape, a, k0) == first + rest);
    lemma_seq_concat_contains_all_elements(first, rest, x);
    if first.contains(x) {
        lemma_preorder_within(shape, root, c, x);
        k0
    } else {
        lemma_preorder_kids_within(shape, root, a, k0 + 1, x)
    }
}

/// No node occurs twice in the pre-order listing of a subtree.
pub proof fn lemma_preorder_distinct(shape: Shape, root: Option<usize>, a: int)
    requires
        well_formed(shape, root),
        0 <= a < shape.len(),
    ensures
        preorder(shape, a).no_duplicates(),
    decreases levels_left(shape, a), kids(shape, a).len() + 1,
{
    let head = seq![a as usize];
    let rest = preorder_kids(shape, a, 0);
    lemma_preorder_kids_distinct(shape, root, a, 0);
    assert forall|i: int, j: int| 0 <= i < head.len() && 0 <= j < rest.len() implies head[i] != rest[j] by {
        if head[i] == rest[j] {
            assert(rest.contains(a as usize));
            let k = lemma_preorder_kids_within(shape, root, a, 0, a as usize);
            lemma_child(shape, root, a, k);
            lemma_subtree_depth(shape, shape[a].children[k] as int, a);
        }
    }
    lemma_no_dup_in_concat(head, rest);
}

/// No node occurs twice in the children's part of a pre-order listing.
pub proof fn lemma_preorder_kids_distinct(shape: Shape, root: Option<usize>, a: int, k0: int)
    requires
        well_formed(shape, root),
        0 <= a < shape.len(),
        0 <= k0,
    ensures
        preorder_kids(shape, a, k0).no_duplicates(),
    decreases levels_left(shape, a), kids(shape, a).len() - k0,
{
    if k0 < shape[a].children.len() {
        lemma_child(shape, root, a, k0);
        let c = shape[a].children[k0] as int;
        let first = preorder(shape, c);
        let rest = preorder_kids(shape, a, k0 + 1);
        assert(preorder_kids(shape, a, k0) == first + rest);
        lemma_preorder_distinct(shape, root, c);
        lemma_preorder_kids_distinct(shape, root, a, k0 + 1);
        assert forall|i: int, j: int| 0 <= i < first.len() && 0 <= j < rest.len() implies first[i] != rest[j] by {
            if first[i] == rest[j] {
                let x = first[i];
                assert(first.contains(x));
                assert(rest.contains(x));
                lemma_preorder_within(shape, root, c, x);
                let k = lemma_preorder_kids_within(shape, root, a, k0 + 1, x);
                lemma_siblings_disjoint(shape, root, a, k0, k, x as int);
            }
        }
        lemma_no_dup_in_concat(first, rest);
    }
}

/// The pre-order listing of a well-formed tree holds every node index exactly
/// once: each index occurs, none occurs twice, and the listing is as long as
/// the tree.
pub proof fn lemma_preorder_all_exactly_once(shape: Shape, root: Option<usize>)
    requires
        well_formed(shape, root),
    ensures
        preorder_all(shape, root).no_duplicates(),
        preorder_all(shape, root).len() == shape.len(),
        forall|j: int| 0 <= j < shape.len() ==> #[trigger] preorder_all(shape, root).contains(j as usize),
        forall|k: int|
            0 <= k < preorder_all(shape, root).len() ==> (#[trigger] preorder_all(shape, root)[k]) < shape.len(),
{
    let order = preorder_all(shape, root);
    if let Some(r) = root {
        lemma_preorder_distinct(shape, root, r as int);
        assert forall|j: int| 0 <= j < shape.len() implies #[trigger] order.contains(j as usize) by {
            lemma_root_covers(shape, root, j);
            lemma_preorder_covers(shape, root, r as int, j);
        }
        assert forall|k: int| 0 <= k < order.len() implies (#[trigger] order[k]) < shape.len() by {
            assert(order.contains(order[k]));
            lemma_preorder_within(shape, root, r as int, order[k]);
            lemma_subtree_depth(shape, r as int, order[k] as int);
        }
        let as_ints = order.map_values(|x: usize| x as int);
        order.lemma_no_duplicates_injective(|x: usize| x as int);
        as_ints.unique_seq_to_set();
        vstd::set_lib::lemma_int_range(0, shape.len() as int);
        assert(as_ints.to_set() =~= vstd::set_lib::set_int_range(0, shape.len() as int)) by {
            assert forall|v: int| as_ints.to_set().contains(v) implies 0 <= v < shape.len() by {
                let k = choose|k: int| 0 <= k < as_ints.len() && as_ints[k] == v;
                assert(order[k] < shape.len());
            }
            assert forall|v: int| 0 <= v < shape.len() implies as_ints.to_set().contains(v) by {
                assert(order.contains(v as usize));
                let k = choose|k: int| 0 <= k < order.len() && order[k] == v as usize;
                assert(as_ints[k] == v);
            }
        }
    }
}

/// A node below one of the first `k` children of `i` lies strictly below `i`.
pub proof fn lemma_first_kids_below(shape: Shape, root: Option<usize>, i: int, k: int, j: int)
    requires
        well_formed(shape, root),
        0 <= i < shape.len(),
        k <= shape[i].children.len(),
        below_first_kids(shape, i, k, j),
    ensures
        in_subtree(shape, i, j),
        j != i,
    decreases k,
{
    let c = shape[i].children[k - 1] as int;
    if in_subtree(shape, c, j) {
        lemma_child(shape, root, i, k - 1);
        lemma_subtree_trans(shape, i, c, j);
        lemma_subtree_depth(shape, c, j);
    } else {
        lemma_first_kids_below(shape, root, i, k - 1, j);
    }
}

/// A node below the `k0`-th child of `i` lies below one of the first `k`
/// children, for any `k` beyond `k0`.
pub proof fn lemma_kid_among_first(shape: Shape, i: int, k0: int, k: int, j: int)
    requires
        0 <= i < shape.len(),
        0 <= k0 < k,
        in_subtree(shape, shape[i].children[k0] as int, j),
    ensures
        below_first_kids(shape, i, k, j),
    decreases k,
{
    if k0 < k - 1 {
        lemma_kid_among_first(shape, i, k0, k - 1, j);
    }
}

/// The subtree of `i` is `i` together with the subtrees of all its children.
pub proof fn lemma_subtree_is_node_and_kids(shape: Shape, root: Option<usize>, i: int, j: int)
    requires
        well_formed(shape, root),
        0 <= i < shape.len(),
    ensures
        in_subtree(shape, i, j) <==> (j == i || below_first_kids(shape, i, shape[i].children.len() as int, j)),
{
    let n = shape[i].children.len() as int;
    if below_first_kids(shape, i, n, j) {
        lemma_first_kids_below(shape, root, i, n, j);
    }
    if in_subtree(shape, i, j) && j != i {
        let k0 = lemma_subtree_via_child(shape, root, i, j);
        lemma_kid_among_first(shape, i, k0, n, j);
    }
}

} // verus!
