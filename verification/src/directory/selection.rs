//! The rules that tie the selection flags of a tree together, and what a
//! toggle does to them.

use crate::directory::shape::{
    depth_of, in_subtree, is_ancestor, kids, lemma_child, lemma_parent, lemma_subtree_depth, lemma_subtree_trans,
    lemma_subtree_via_child, levels_left, parent_of, well_formed, Shape,
};
use crate::directory::state::{aggregate, all_are, SelectionState};
use vstd::prelude::*;

verus! {

/// The selection flag of every node, by index.
pub type States = Seq<SelectionState>;

/// The flags of the children of `d`, in stored order.
pub open spec fn kid_states(shape: Shape, states: States, d: int) -> States {
    Seq::new(kids(shape, d).len(), |k: int| states[kids(shape, d)[k] as int])
}

/// Node `d` agrees with what lies below it: a node with children carries the
/// aggregate of their flags, and a node without children is never `Partial`.
pub open spec fn node_consistent(shape: Shape, states: States, d: int) -> bool {
    if kids(shape, d).len() > 0 {
        states[d] == aggregate(kid_states(shape, states, d))
    } else {
        states[d] != SelectionState::Partial
    }
}

/// Every node agrees with what lies below it.
pub open spec fn consistent(shape: Shape, states: States) -> bool {
    &&& states.len() == shape.len()
    &&& forall|d: int| 0 <= d < shape.len() ==> #[trigger] node_consistent(shape, states, d)
}

/// What toggling node `i` makes of the flags: the whole subtree of `i` takes
/// the toggled flag of `i`, every node strictly above `i` takes the aggregate
/// of its children's new flags, and all other nodes keep theirs.
pub open spec fn toggled_to(shape: Shape, before: States, after: States, i: int) -> bool {
    &&& after.len() == before.len()
    &&& forall|j: int|
        0 <= j < shape.len() && in_subtree(shape, i, j) ==> #[trigger] after[j] == before[i].toggled_spec()
    &&& forall|j: int|
        0 <= j < shape.len() && !in_subtree(shape, i, j) && !in_subtree(shape, j, i) ==> #[trigger] after[j]
            == before[j]
    &&& forall|j: int|
        0 <= j < shape.len() && is_ancestor(shape, j, i) ==> #[trigger] after[j] == aggregate(
            kid_states(shape, after, j),
        )
}

/// The aggregate of flags that are all `s` is `s`, for a definite `s`.
pub proof fn lemma_aggregate_uniform(states: States, s: SelectionState)
    requires
        states.len() > 0,
        all_are(states, s),
        s != SelectionState::Partial,
    ensures
        aggregate(states) == s,
{
    assert(states[0] == s);
}

/// A node strictly above another has children.
pub proof fn lemma_ancestor_has_kids(shape: Shape, root: Option<usize>, a: int, i: int)
    requires
        well_formed(shape, root),
        0 <= a < shape.len(),
        is_ancestor(shape, a, i),
    ensures
        kids(shape, a).len() > 0,
{
    let k = lemma_subtree_via_child(shape, root, a, i);
}

/// After the subtree of `i` has been set to one definite flag in a consistent
/// tree, every node that does not lie strictly above `i` is consistent.
pub proof fn lemma_subtree_set_consistent(
    shape: Shape,
    root: Option<usize>,
    before: States,
    after: States,
    i: int,
    s: SelectionState,
)
    requires
        well_formed(shape, root),
        consistent(shape, before),
        0 <= i < shape.len(),
        s != SelectionState::Partial,
        after.len() == shape.len(),
        forall|j: int|
            0 <= j < shape.len() ==> #[trigger] after[j] == (if in_subtree(shape, i, j) {
                s
            } else {
                before[j]
            }),
    ensures
        forall|d: int|
            0 <= d < shape.len() && !is_ancestor(shape, d, i) ==> #[trigger] node_consistent(shape, after, d),
{
    assert forall|d: int| 0 <= d < shape.len() && !is_ancestor(shape, d, i) implies #[trigger] node_consistent(
        shape,
        after,
        d,
    ) by {
        let below = kid_states(shape, after, d);
        if in_subtree(shape, i, d) {
            assert(after[d] == s);
            assert forall|k: int| 0 <= k < below.len() implies below[k] == s by {
                lemma_child(shape, root, d, k);
                assert(in_subtree(shape, i, kids(shape, d)[k] as int));
            }
            if below.len() > 0 {
                lemma_aggregate_uniform(below, s);
            }
        } else {
            assert(after[d] == before[d]);
            assert(node_consistent(shape, before, d));
            assert forall|k: int| 0 <= k < below.len() implies below[k] == kid_states(shape, before, d)[k] by {
                lemma_child(shape, root, d, k);
                let c = kids(shape, d)[k] as int;
                if in_subtree(shape, i, c) {
                    if c == i {
                        assert(in_subtree(shape, d, d));
                        assert(in_subtree(shape, d, i));
                    }
                }
            }
            assert(below =~= kid_states(shape, before, d));
        }
    }
}

/// Giving node `a` the aggregate of its children's flags, when every node not
/// above-or-equal to `a` is already consistent, leaves only the nodes
/// above-or-equal to the parent of `a` to be dealt with; with no parent, the
/// whole tree is consistent.
pub proof fn lemma_refresh_step(shape: Shape, root: Option<usize>, before: States, after: States, a: int)
    requires
        well_formed(shape, root),
        before.len() == shape.len(),
        0 <= a < shape.len(),
        kids(shape, a).len() > 0,
        forall|d: int|
            0 <= d < shape.len() && !in_subtree(shape, d, a) ==> #[trigger] node_consistent(shape, before, d),
        after == before.update(a, aggregate(kid_states(shape, before, a))),
    ensures
        match shape[a].parent {
            None => consistent(shape, after),
            Some(p) => forall|d: int|
                0 <= d < shape.len() && !in_subtree(shape, d, p as int) ==> #[trigger] node_consistent(
                    shape,
                    after,
                    d,
                ),
        },
{
    lemma_parent(shape, root, a);
    let up = parent_of(shape, a);
    assert forall|d: int|
        0 <= d < shape.len() && (up is Some ==> !in_subtree(shape, d, up->0)) implies #[trigger] node_consistent(
        shape,
        after,
        d,
    ) by {
        let below = kid_states(shape, after, d);
        assert forall|k: int| 0 <= k < below.len() implies below[k] == kid_states(shape, before, d)[k] by {
            lemma_child(shape, root, d, k);
            if kids(shape, d)[k] as int == a {
                assert(in_subtree(shape, d, d));
            }
        }
        assert(below =~= kid_states(shape, before, d));
        if d != a {
            assert(!in_subtree(shape, d, a));
            assert(node_consistent(shape, before, d));
        }
    }
}

/// A node of the subtree of `i` does not lie strictly above `i`.
pub proof fn lemma_subtree_not_above(shape: Shape, i: int, j: int)
    requires
        0 <= i < shape.len(),
        in_subtree(shape, i, j),
    ensures
        !is_ancestor(shape, j, i),
{
    lemma_subtree_depth(shape, i, j);
    if in_subtree(shape, j, i) {
        lemma_subtree_depth(shape, j, i);
    }
}

/// Downward propagation: after a toggle of `i`, every node below `i` carries
/// the flag that `i` was toggled to.
pub proof fn lemma_toggle_reaches_descendants(shape: Shape, before: States, after: States, i: int, j: int)
    requires
        0 <= i < shape.len(),
        0 <= j < shape.len(),
        toggled_to(shape, before, after, i),
        in_subtree(shape, i, j),
    ensures
        after[i] == before[i].toggled_spec(),
        after[j] == after[i],
        after[j] != SelectionState::Partial,
{
    assert(in_subtree(shape, i, i));
}

/// Toggling a node twice that is `Partial` does not give back `Partial`: the
/// first toggle makes it `Excluded`, the second `Included`.
pub proof fn lemma_double_toggle_partial(shape: Shape, s0: States, s1: States, s2: States, i: int)
    requires
        0 <= i < shape.len(),
        s0[i] == SelectionState::Partial,
        toggled_to(shape, s0, s1, i),
        toggled_to(shape, s1, s2, i),
    ensures
        s1[i] == SelectionState::Excluded,
        s2[i] == SelectionState::Included,
{
    assert(in_subtree(shape, i, i));
}

/// Toggling a node twice that is not `Partial` gives the node its flag back.
pub proof fn lemma_double_toggle_definite(shape: Shape, s0: States, s1: States, s2: States, i: int)
    requires
        0 <= i < shape.len(),
        s0[i] != SelectionState::Partial,
        toggled_to(shape, s0, s1, i),
        toggled_to(shape, s1, s2, i),
    ensures
        s2[i] == s0[i],
{
    assert(in_subtree(shape, i, i));
}

/// After two toggles of a node that is not `Partial` in a consistent tree,
/// node `j` carries the flag it had before.
proof fn lemma_double_toggle_at(
    shape: Shape,
    root: Option<usize>,
    s0: States,
    s1: States,
    s2: States,
    i: int,
    j: int,
)
    requires
        well_formed(shape, root),
        consistent(shape, s0),
        0 <= i < shape.len(),
        0 <= j < shape.len(),
        s0[i] != SelectionState::Partial,
        toggled_to(shape, s0, s1, i),
        toggled_to(shape, s1, s2, i),
    ensures
        s2[j] == s0[j],
    decreases levels_left(shape, j),
{
    assert(in_subtree(shape, i, i));
    if in_subtree(shape, i, j) {
        lemma_definite_spreads(shape, root, s0, i, j);
    } else if in_subtree(shape, j, i) {
        lemma_ancestor_has_kids(shape, root, j, i);
        assert(node_consistent(shape, s0, j));
        let new = kid_states(shape, s2, j);
        let old = kid_states(shape, s0, j);
        assert forall|k: int| 0 <= k < new.len() implies new[k] == old[k] by {
            lemma_child(shape, root, j, k);
            lemma_double_toggle_at(shape, root, s0, s1, s2, i, kids(shape, j)[k] as int);
        }
        assert(new =~= old);
    }
}

/// Toggling a node twice that is `Included` or `Excluded` in a consistent
/// tree gives back the flags of the whole tree.
pub proof fn lemma_double_toggle_restores(
    shape: Shape,
    root: Option<usize>,
    s0: States,
    s1: States,
    s2: States,
    i: int,
)
    requires
        well_formed(shape, root),
        consistent(shape, s0),
        0 <= i < shape.len(),
        s0[i] != SelectionState::Partial,
        toggled_to(shape, s0, s1, i),
        toggled_to(shape, s1, s2, i),
    ensures
        s2 == s0,
{
    assert forall|j: int| 0 <= j < s0.len() implies s2[j] == s0[j] by {
        lemma_double_toggle_at(shape, root, s0, s1, s2, i, j);
    }
    assert(s2 =~= s0);
}

/// Toggling a node without children twice in a consistent tree gives back
/// the flags of the whole tree: such a node is never `Partial`.
pub proof fn lemma_double_toggle_leaf(shape: Shape, root: Option<usize>, s0: States, s1: States, s2: States, i: int)
    requires
        well_formed(shape, root),
        consistent(shape, s0),
        0 <= i < shape.len(),
        kids(shape, i).len() == 0,
        toggled_to(shape, s0, s1, i),
        toggled_to(shape, s1, s2, i),
    ensures
        s2 == s0,
        s2[i] == s0[i],
{
    assert(node_consistent(shape, s0, i));
    lemma_double_toggle_restores(shape, root, s0, s1, s2, i);
}

/// After a toggle of `i`, the flag of node `j` is the same in any two
/// outcomes that `toggled_to` admits.
proof fn lemma_toggle_determined_at(
    shape: Shape,
    root: Option<usize>,
    before: States,
    a1: States,
    a2: States,
    i: int,
    j: int,
)
    requires
        well_formed(shape, root),
        before.len() == shape.len(),
        0 <= i < shape.len(),
        0 <= j < shape.len(),
        toggled_to(shape, before, a1, i),
        toggled_to(shape, before, a2, i),
    ensures
        a1[j] == a2[j],
    decreases levels_left(shape, j),
{
    if !in_subtree(shape, i, j) && in_subtree(shape, j, i) {
        let k1 = kid_states(shape, a1, j);
        let k2 = kid_states(shape, a2, j);
        assert forall|k: int| 0 <= k < k1.len() implies k1[k] == k2[k] by {
            lemma_child(shape, root, j, k);
            lemma_toggle_determined_at(shape, root, before, a1, a2, i, kids(shape, j)[k] as int);
        }
        assert(k1 =~= k2);
    }
}

/// What a toggle makes of the flags is determined by the tree, the flags
/// before, and the node: `toggled_to` admits one outcome only.
pub proof fn lemma_toggle_determined(
    shape: Shape,
    root: Option<usize>,
    before: States,
    a1: States,
    a2: States,
    i: int,
)
    requires
        well_formed(shape, root),
        before.len() == shape.len(),
        0 <= i < shape.len(),
        toggled_to(shape, before, a1, i),
        toggled_to(shape, before, a2, i),
    ensures
        a1 == a2,
{
    assert forall|j: int| 0 <= j < a1.len() implies a1[j] == a2[j] by {
        lemma_toggle_determined_at(shape, root, before, a1, a2, i, j);
    }
    assert(a1 =~= a2);
}

/// In a consistent tree every directory that has children carries the
/// aggregate of their flags, and no other node is `Partial`.
pub proof fn lemma_consistent_means_aggregate(shape: Shape, states: States, d: int)
    requires
        consistent(shape, states),
        0 <= d < shape.len(),
    ensures
        kids(shape, d).len() > 0 ==> states[d] == aggregate(kid_states(shape, states, d)),
        kids(shape, d).len() == 0 ==> states[d] != SelectionState::Partial,
{
    assert(node_consistent(shape, states, d));
}

/// Every node without children in the subtree of `d` carries the flag `s`.
/// Where every directory holds something, these nodes are the files below
/// `d`, or `d` itself when it is a file.
pub open spec fn leaves_are(shape: Shape, states: States, d: int, s: SelectionState) -> bool {
    forall|j: int|
        0 <= j < shape.len() && in_subtree(shape, d, j) && kids(shape, j).len() == 0 ==> #[trigger] states[j] == s
}

/// The subtree of every node holds a node without children.
pub proof fn lemma_has_leaf(shape: Shape, root: Option<usize>, d: int) -> (j: int)
    requires
        well_formed(shape, root),
        0 <= d < shape.len(),
    ensures
        0 <= j < shape.len(),
        in_subtree(shape, d, j),
        kids(shape, j).len() == 0,
    decreases levels_left(shape, d),
{
    if kids(shape, d).len() == 0 {
        assert(in_subtree(shape, d, d));
        d
    } else {
        lemma_child(shape, root, d, 0);
        let c = kids(shape, d)[0] as int;
        let j = lemma_has_leaf(shape, root, c);
        lemma_subtree_trans(shape, d, c, j);
        j
    }
}

/// In a consistent tree, everything below a node that is `Included` or
/// `Excluded` carries the same flag.
pub proof fn lemma_definite_spreads(shape: Shape, root: Option<usize>, states: States, d: int, j: int)
    requires
        well_formed(shape, root),
        consistent(shape, states),
        0 <= d < shape.len(),
        states[d] != SelectionState::Partial,
        in_subtree(shape, d, j),
    ensures
        0 <= j < shape.len(),
        states[j] == states[d],
    decreases depth_of(shape, j),
{
    lemma_subtree_depth(shape, d, j);
    if j != d {
        let p = parent_of(shape, j)->0;
        lemma_parent(shape, root, j);
        lemma_definite_spreads(shape, root, states, d, p);
        assert(node_consistent(shape, states, p));
        let k = choose|k: int| 0 <= k < shape[p].children.len() && shape[p].children[k] == j as usize;
        let below = kid_states(shape, states, p);
        assert(below[k] == states[j]);
    }
}

/// In a consistent tree, below a `Partial` node lie a node without children
/// that is `Included` and one that is `Excluded`.
pub proof fn lemma_partial_is_mixed(shape: Shape, root: Option<usize>, states: States, d: int) -> (r: (int, int))
    requires
        well_formed(shape, root),
        consistent(shape, states),
        0 <= d < shape.len(),
        states[d] == SelectionState::Partial,
    ensures
        0 <= r.0 < shape.len() && in_subtree(shape, d, r.0) && kids(shape, r.0).len() == 0 && states[r.0]
            == SelectionState::Included,
        0 <= r.1 < shape.len() && in_subtree(shape, d, r.1) && kids(shape, r.1).len() == 0 && states[r.1]
            == SelectionState::Excluded,
    decreases levels_left(shape, d),
{
    assert(node_consistent(shape, states, d));
    let below = kid_states(shape, states, d);
    let k1 = choose|k: int| 0 <= k < below.len() && below[k] != SelectionState::Excluded;
    let k2 = choose|k: int| 0 <= k < below.len() && below[k] != SelectionState::Included;
    lemma_child(shape, root, d, k1);
    lemma_child(shape, root, d, k2);
    let c1 = kids(shape, d)[k1] as int;
    let c2 = kids(shape, d)[k2] as int;
    assert(below[k1] == states[c1] && below[k2] == states[c2]);
    let a = if states[c1] == SelectionState::Partial {
        lemma_partial_is_mixed(shape, root, states, c1).0
    } else {
        let j = lemma_has_leaf(shape, root, c1);
        lemma_definite_spreads(shape, root, states, c1, j);
        j
    };
    let b = if states[c2] == SelectionState::Partial {
        lemma_partial_is_mixed(shape, root, states, c2).1
    } else {
        let j = lemma_has_leaf(shape, root, c2);
        lemma_definite_spreads(shape, root, states, c2, j);
        j
    };
    lemma_subtree_trans(shape, d, c1, a);
    lemma_subtree_trans(shape, d, c2, b);
    (a, b)
}

/// What the flag of a node says about what lies below it, in a consistent
/// tree: the node is `Included` exactly when every node without children in
/// its subtree is `Included`, `Excluded` exactly when every such node is
/// `Excluded`, and `Partial` exactly when they are a mix.
pub proof fn lemma_state_reflects_leaves(shape: Shape, root: Option<usize>, states: States, d: int)
    requires
        well_formed(shape, root),
        consistent(shape, states),
        0 <= d < shape.len(),
    ensures
        states[d] == SelectionState::Included <==> leaves_are(shape, states, d, SelectionState::Included),
        states[d] == SelectionState::Excluded <==> leaves_are(shape, states, d, SelectionState::Excluded),
        states[d] == SelectionState::Partial <==> !leaves_are(shape, states, d, SelectionState::Included)
            && !leaves_are(shape, states, d, SelectionState::Excluded),
{
    let leaf = lemma_has_leaf(shape, root, d);
    if states[d] == SelectionState::Partial {
        let mix = lemma_partial_is_mixed(shape, root, states, d);
        assert(states[mix.0] == SelectionState::Included);
        assert(states[mix.1] == SelectionState::Excluded);
    } else {
        lemma_definite_spreads(shape, root, states, d, leaf);
        assert(states[leaf] == states[d]);
        assert forall|j: int|
            0 <= j < shape.len() && in_subtree(shape, d, j) && kids(shape, j).len() == 0 implies #[trigger] states[j]
            == states[d] by {
            lemma_definite_spreads(shape, root, states, d, j);
        }
    }
}

} // verus!
