//! The filtered projection of a tree: the display path of each node, and the
//! ordered list of node indices that a query shows.

use crate::directory::shape::{
    depth_of, lemma_parent, lemma_preorder_all_exactly_once, parent_of, preorder_all, well_formed, Shape,
};
use crate::directory::tree::{DirectoryTree, Node};
use crate::fuzzy::matcher::{best_match, lemma_quality_is_tightest, occurs_in, quality};
use crate::fuzzy::ranking::{in_rank_order, ranks_before, sort_ranked, Ranked};
use vstd::prelude::*;
use vstd::string::{StrSliceExecFns, StringExecFns};

verus! {

/// The name of every node, by index.
pub open spec fn names_of(nodes: Seq<Node>) -> Seq<Seq<char>> {
    Seq::new(nodes.len(), |i: int| nodes[i].name@)
}

/// The path shown for node `i`: the names from the root down to the node,
/// joined by `/`. Empty for an index outside the tree.
pub open spec fn display_path(shape: Shape, names: Seq<Seq<char>>, i: int) -> Seq<char>
    decreases depth_of(shape, i),
{
    if 0 <= i < names.len() {
        match parent_of(shape, i) {
            Some(p) => display_path(shape, names, p) + seq!['/'] + names[i],
            None => names[i],
        }
    } else {
        Seq::empty()
    }
}

/// The lower-case form of a text, as the standard library's `str::to_lowercase`
/// gives it.
pub uninterp spec fn lowercase_of(text: Seq<char>) -> Seq<char>;

/// Calls `str::to_lowercase`. Believed of it: the text it returns depends on
/// the text it is given and on nothing else, so it has a name,
/// `lowercase_of`.
#[verifier::external_body]
fn lowercase(text: &str) -> (r: String)
    ensures
        r@ == lowercase_of(text@),
{
    text.to_lowercase()
}

/// The query `q` shows node `node`: the characters of the query, in lower
/// case, occur in order in the node's display path, in lower case.
pub open spec fn shows(q: Seq<char>, shape: Shape, names: Seq<Seq<char>>, node: int) -> bool {
    occurs_in(lowercase_of(q), lowercase_of(display_path(shape, names, node)))
}

/// What decides the place of a node among the matches: span and start of the
/// best match of the lower-case query in its lower-case path, the length of
/// the path as displayed, and its place in `order`.
pub open spec fn rank_key(q: Seq<char>, shape: Shape, names: Seq<Seq<char>>, order: Seq<usize>, node: int) -> (
    int,
    int,
    int,
    int,
) {
    let path = display_path(shape, names, node);
    let best = quality(lowercase_of(q), lowercase_of(path))->0;
    (best.0, best.1, path.len() as int, order.index_of(node as usize))
}

/// Key `a` comes before key `b`, comparing component by component.
pub open spec fn key_before(a: (int, int, int, int), b: (int, int, int, int)) -> bool {
    a.0 < b.0 || (a.0 == b.0 && (a.1 < b.1 || (a.1 == b.1 && (a.2 < b.2 || (a.2 == b.2 && a.3 < b.3)))))
}

/// `result` is what the query `q` shows of the tree. The empty query shows
/// every node, in pre-order, and so does a query whose lower-case form is
/// empty. Any other query shows exactly the nodes whose display path it
/// matches without regard to case, the better match first: smaller span,
/// then earlier start, then shorter path, then earlier place in pre-order.
pub open spec fn is_filtered(
    result: Seq<usize>,
    q: Seq<char>,
    shape: Shape,
    root: Option<usize>,
    names: Seq<Seq<char>>,
) -> bool {
    if q.len() == 0 || lowercase_of(q).len() == 0 {
        result == preorder_all(shape, root)
    } else {
        let order = preorder_all(shape, root);
        &&& forall|t: int|
            0 <= t < result.len() ==> (#[trigger] result[t]) < shape.len() && shows(q, shape, names, result[t] as int)
        &&& forall|j: int| 0 <= j < shape.len() && shows(q, shape, names, j) ==> #[trigger] result.contains(j as usize)
        &&& forall|t1: int, t2: int|
            0 <= t1 < t2 < result.len() ==> key_before(
                rank_key(q, shape, names, order, (#[trigger] result[t1]) as int),
                rank_key(q, shape, names, order, (#[trigger] result[t2]) as int),
            )
    }
}

/// The characters of a string.
pub fn chars_of(s: &str) -> (v: Vec<char>)
    ensures
        v@ == s@,
{
    let mut v: Vec<char> = Vec::new();
    let it = s.chars();
    for c in iter: it
        invariant
            v@ == iter.seq().take(iter.index() as int),
    {
        v.push(c);
    }
    v
}

/// Appends the display path of node `index` to `out`.
fn append_display_path(tree: &DirectoryTree, index: usize, out: &mut String)
    requires
        tree.structured(),
        index < tree.nodes().len(),
    ensures
        final(out)@ == old(out)@ + display_path(tree.shape(), names_of(tree.nodes()), index as int),
    decreases depth_of(tree.shape(), index as int),
{
    let node = tree.get_node(index).unwrap();
    proof {
        lemma_parent(tree.shape(), tree.root(), index as int);
        reveal_strlit("/");
    }
    if let Some(p) = node.parent {
        append_display_path(tree, p, out);
        out.append("/");
        assert("/"@ =~= seq!['/']);
    }
    out.append(node.name.as_str());
    assert(out@ =~= old(out)@ + display_path(tree.shape(), names_of(tree.nodes()), index as int));
}

/// The display path of the node at `index`: the names from the root down to
/// the node, joined by `/`. Empty when the index is out of range.
pub fn get_node_display_path(tree: &DirectoryTree, index: usize) -> (r: String)
    requires
        tree.structured(),
    ensures
        r@ == display_path(tree.shape(), names_of(tree.nodes()), index as int),
{
    let mut out = String::new();
    if index < tree.len() {
        append_display_path(tree, index, &mut out);
        assert(out@ =~= display_path(tree.shape(), names_of(tree.nodes()), index as int));
    }
    out
}

/// The entry `c` describes a node that the query shows: its place in
/// `order`, the quality of the match in its path, and the path's length.
spec fn describes(c: Ranked, q: Seq<char>, shape: Shape, names: Seq<Seq<char>>, order: Seq<usize>) -> bool {
    let path = display_path(shape, names, c.node as int);
    &&& c.position < order.len()
    &&& order[c.position as int] == c.node
    &&& quality(lowercase_of(q), lowercase_of(path)) == Some((c.span as int, c.start as int))
    &&& c.length == path.len()
}

/// Sorting the described matches of a query and taking their nodes gives
/// what the query shows.
proof fn lemma_ordered_matches(
    found: Seq<Ranked>,
    sorted: Seq<Ranked>,
    result: Seq<usize>,
    q: Seq<char>,
    shape: Shape,
    root: Option<usize>,
    names: Seq<Seq<char>>,
)
    requires
        well_formed(shape, root),
        q.len() > 0,
        lowercase_of(q).len() > 0,
        forall|t: int| 0 <= t < found.len() ==> describes(#[trigger] found[t], q, shape, names, preorder_all(shape, root)),
        forall|t1: int, t2: int|
            0 <= t1 < t2 < found.len() ==> (#[trigger] found[t1]).position < (#[trigger] found[t2]).position,
        forall|pos: int|
            0 <= pos < preorder_all(shape, root).len() && shows(
                q,
                shape,
                names,
                (#[trigger] preorder_all(shape, root)[pos]) as int,
            ) ==> exists|t: int| 0 <= t < found.len() && (#[trigger] found[t]).position == pos,
        in_rank_order(sorted),
        sorted.to_multiset() == found.to_multiset(),
        result.len() == sorted.len(),
        forall|t: int| 0 <= t < sorted.len() ==> (#[trigger] result[t]) == sorted[t].node,
    ensures
        is_filtered(result, q, shape, root, names),
{
    let order = preorder_all(shape, root);
    lemma_preorder_all_exactly_once(shape, root);
    found.to_multiset_ensures();
    sorted.to_multiset_ensures();
    assert forall|t: int| 0 <= t < sorted.len() implies found.contains(#[trigger] sorted[t]) by {
        assert(sorted.contains(sorted[t]));
        assert(sorted.to_multiset().count(sorted[t]) > 0);
        assert(found.to_multiset().count(sorted[t]) > 0);
    }
    assert forall|t: int| 0 <= t < sorted.len() implies describes(#[trigger] sorted[t], q, shape, names, order) by {
        assert(found.contains(sorted[t]));
    }
    assert forall|t: int| 0 <= t < sorted.len() implies rank_key(q, shape, names, order, sorted[t].node as int) == (
        (#[trigger] sorted[t]).span as int,
        sorted[t].start as int,
        sorted[t].length as int,
        sorted[t].position as int,
    ) by {
        let c = sorted[t];
        assert(describes(c, q, shape, names, order));
        assert(order.contains(c.node));
        let at = order.index_of(c.node);
        assert(order[at] == order[c.position as int]);
    }
    assert forall|t: int| 0 <= t < result.len() implies (#[trigger] result[t]) < shape.len() && shows(
        q,
        shape,
        names,
        result[t] as int,
    ) by {
        let c = sorted[t];
        assert(describes(c, q, shape, names, order));
        assert(order[c.position as int] < shape.len());
        lemma_quality_is_tightest(lowercase_of(q), lowercase_of(display_path(shape, names, c.node as int)));
    }
    assert forall|j: int| 0 <= j < shape.len() && shows(q, shape, names, j) implies #[trigger] result.contains(
        j as usize,
    ) by {
        assert(order.contains(j as usize));
        let pos = order.index_of(j as usize);
        assert(order[pos] == j as usize);
        let t = choose|t: int| 0 <= t < found.len() && (#[trigger] found[t]).position == pos;
        assert(describes(found[t], q, shape, names, order));
        assert(found.contains(found[t]));
        assert(found.to_multiset().count(found[t]) > 0);
        assert(sorted.to_multiset().count(found[t]) > 0);
        assert(sorted.contains(found[t]));
        let u = choose|u: int| 0 <= u < sorted.len() && sorted[u] == found[t];
        assert(result[u] == j as usize);
    }
    assert forall|t1: int, t2: int| 0 <= t1 < t2 < result.len() implies key_before(
        rank_key(q, shape, names, order, (#[trigger] result[t1]) as int),
        rank_key(q, shape, names, order, (#[trigger] result[t2]) as int),
    ) by {
        let a = sorted[t1];
        let b = sorted[t2];
        assert(!ranks_before(b, a));
        assert(found.contains(a) && found.contains(b));
        let ia = choose|i: int| 0 <= i < found.len() && found[i] == a;
        let ib = choose|i: int| 0 <= i < found.len() && found[i] == b;
        if a.position == b.position {
            if ia < ib {
                assert(found[ia].position < found[ib].position);
            } else if ib < ia {
                assert(found[ib].position < found[ia].position);
            } else {
                assert forall|i: int, j: int| 0 <= i < found.len() && 0 <= j < found.len() && i != j implies found[i]
                    != found[j] by {
                    if i < j {
                        assert(found[i].position < found[j].position);
                    } else {
                        assert(found[j].position < found[i].position);
                    }
                }
                found.lemma_multiset_has_no_duplicates();
                sorted.lemma_multiset_has_no_duplicates_conv();
                assert(sorted[t1] != sorted[t2]);
            }
        }
        assert(result[t1] == a.node && result[t2] == b.node);
    }
}

/// The node indices that the query shows, in display order. The empty query
/// shows every node, in pre-order. Any other query shows the nodes whose
/// display path holds the query's characters in order, both taken in lower
/// case; the match with the smaller span comes first, then the earlier
/// start, then the shorter path, then the earlier place in pre-order.
pub fn filter(query: &str, tree: &DirectoryTree) -> (r: Vec<usize>)
    requires
        tree.structured(),
    ensures
        is_filtered(r@, query@, tree.shape(), tree.root(), names_of(tree.nodes())),
{
    let order = tree.preorder();
    if query.is_empty() {
        return order;
    }
    let lowered = lowercase(query);
    let q = chars_of(lowered.as_str());
    if q.len() == 0 {
        return order;
    }
    let ghost shape = tree.shape();
    let ghost names = names_of(tree.nodes());
    proof {
        lemma_preorder_all_exactly_once(shape, tree.root());
    }
    let mut found: Vec<Ranked> = Vec::new();
    let mut k: usize = 0;
    while k < order.len()
        invariant
            tree.structured(),
            shape == tree.shape(),
            names == names_of(tree.nodes()),
            order@ == preorder_all(shape, tree.root()),
            q@ == lowercase_of(query@),
            q@.len() > 0,
            k <= order@.len(),
            forall|t: int| 0 <= t < found@.len() ==> describes(#[trigger] found@[t], query@, shape, names, order@),
            forall|t: int| 0 <= t < found@.len() ==> (#[trigger] found@[t]).position < k,
            forall|t1: int, t2: int|
                0 <= t1 < t2 < found@.len() ==> (#[trigger] found@[t1]).position < (#[trigger] found@[t2]).position,
            forall|pos: int|
                0 <= pos < k && shows(query@, shape, names, (#[trigger] order@[pos]) as int) ==> exists|t: int|
                    0 <= t < found@.len() && (#[trigger] found@[t]).position == pos,
        decreases order@.len() - k,
    {
        let node = order[k];
        let text = get_node_display_path(tree, node);
        let length = text.as_str().unicode_len();
        let path = chars_of(lowercase(text.as_str()).as_str());
        let ghost before = found@;
        proof {
            lemma_quality_is_tightest(q@, path@);
        }
        match best_match(&q, &path) {
            Some(best) => {
                let entry = Ranked { span: best.0, start: best.1, length, position: k, node };
                found.push(entry);
                proof {
                    assert(found@[before.len() as int] == entry);
                    assert forall|pos: int|
                        0 <= pos < k + 1 && shows(query@, shape, names, (#[trigger] order@[pos]) as int) implies exists|
                        t: int,
                    |
                        0 <= t < found@.len() && (#[trigger] found@[t]).position == pos by {
                        if pos < k {
                            let t = choose|t: int| 0 <= t < before.len() && (#[trigger] before[t]).position == pos;
                            assert(found@[t] == before[t]);
                        } else {
                            assert(found@[before.len() as int].position == pos);
                        }
                    }
                }
            },
            None => {},
        }
        k += 1;
    }
    let sorted = sort_ranked(&found);
    let mut out: Vec<usize> = Vec::new();
    let mut t: usize = 0;
    while t < sorted.len()
        invariant
            t <= sorted@.len(),
            out@.len() == t,
            forall|u: int| 0 <= u < t ==> (#[trigger] out@[u]) == sorted@[u].node,
        decreases sorted@.len() - t,
    {
        out.push(sorted[t].node);
        t += 1;
    }
    proof {
        lemma_ordered_matches(found@, sorted@, out@, query@, shape, tree.root(), names);
    }
    out
}

/// Two lists that a query shows of one tree agree at every place they both
/// have.
proof fn lemma_same_entry(
    r1: Seq<usize>,
    r2: Seq<usize>,
    q: Seq<char>,
    shape: Shape,
    root: Option<usize>,
    names: Seq<Seq<char>>,
    k: int,
)
    requires
        q.len() > 0,
        lowercase_of(q).len() > 0,
        is_filtered(r1, q, shape, root, names),
        is_filtered(r2, q, shape, root, names),
        0 <= k < r1.len(),
        k < r2.len(),
    ensures
        r1[k] == r2[k],
    decreases k,
{
    let order = preorder_all(shape, root);
    assert forall|m: int| 0 <= m < k implies r1[m] == r2[m] by {
        lemma_same_entry(r1, r2, q, shape, root, names, m);
    }
    let x = r1[k];
    let y = r2[k];
    if x != y {
        assert(shows(q, shape, names, x as int));
        assert(r2.contains(x as int as usize));
        let m = choose|m: int| 0 <= m < r2.len() && r2[m] == x;
        if m < k {
            assert(r1[m] == r2[m]);
            assert(key_before(
                rank_key(q, shape, names, order, r1[m] as int),
                rank_key(q, shape, names, order, r1[k] as int),
            ));
        }
        assert(key_before(
            rank_key(q, shape, names, order, r2[k] as int),
            rank_key(q, shape, names, order, r2[m] as int),
        ));
        assert(shows(q, shape, names, y as int));
        assert(r1.contains(y as int as usize));
        let m2 = choose|m2: int| 0 <= m2 < r1.len() && r1[m2] == y;
        if m2 < k {
            assert(r1[m2] == r2[m2]);
            assert(key_before(
                rank_key(q, shape, names, order, r2[m2] as int),
                rank_key(q, shape, names, order, r2[k] as int),
            ));
        }
        assert(key_before(
            rank_key(q, shape, names, order, r1[k] as int),
            rank_key(q, shape, names, order, r1[m2] as int),
        ));
    }
}

/// A list that a query shows of a tree is no longer than another such list.
proof fn lemma_not_longer(
    r1: Seq<usize>,
    r2: Seq<usize>,
    q: Seq<char>,
    shape: Shape,
    root: Option<usize>,
    names: Seq<Seq<char>>,
)
    requires
        q.len() > 0,
        lowercase_of(q).len() > 0,
        is_filtered(r1, q, shape, root, names),
        is_filtered(r2, q, shape, root, names),
    ensures
        r1.len() <= r2.len(),
{
    let order = preorder_all(shape, root);
    if r1.len() > r2.len() {
        let k = r2.len() as int;
        let x = r1[k];
        assert(shows(q, shape, names, x as int));
        assert(r2.contains(x as int as usize));
        let m = choose|m: int| 0 <= m < r2.len() && r2[m] == x;
        lemma_same_entry(r1, r2, q, shape, root, names, m);
        assert(key_before(
            rank_key(q, shape, names, order, r1[m] as int),
            rank_key(q, shape, names, order, r1[k] as int),
        ));
    }
}

/// The filter is determined by the query and the tree: two lists that the
/// same query shows of the same tree are the same list.
pub proof fn lemma_filter_deterministic(
    r1: Seq<usize>,
    r2: Seq<usize>,
    q: Seq<char>,
    shape: Shape,
    root: Option<usize>,
    names: Seq<Seq<char>>,
)
    requires
        is_filtered(r1, q, shape, root, names),
        is_filtered(r2, q, shape, root, names),
    ensures
        r1 == r2,
{
    if q.len() > 0 && lowercase_of(q).len() > 0 {
        lemma_not_longer(r1, r2, q, shape, root, names);
        lemma_not_longer(r2, r1, q, shape, root, names);
        assert forall|k: int| 0 <= k < r1.len() implies r1[k] == r2[k] by {
            lemma_same_entry(r1, r2, q, shape, root, names, k);
        }
        assert(r1 =~= r2);
    }
}

/// The empty query shows every node of the tree exactly once, in pre-order.
pub proof fn lemma_empty_query_shows_all(
    result: Seq<usize>,
    shape: Shape,
    root: Option<usize>,
    names: Seq<Seq<char>>,
)
    requires
        well_formed(shape, root),
        is_filtered(result, Seq::<char>::empty(), shape, root, names),
    ensures
        result == preorder_all(shape, root),
        result.len() == shape.len(),
        result.no_duplicates(),
        forall|j: int| 0 <= j < shape.len() ==> #[trigger] result.contains(j as usize),
{
    lemma_preorder_all_exactly_once(shape, root);
}

/// A list that a query shows of a tree holds no node twice, and only nodes of
/// the tree.
pub proof fn lemma_filtered_distinct(
    result: Seq<usize>,
    q: Seq<char>,
    shape: Shape,
    root: Option<usize>,
    names: Seq<Seq<char>>,
)
    requires
        well_formed(shape, root),
        is_filtered(result, q, shape, root, names),
    ensures
        result.no_duplicates(),
        forall|t: int| 0 <= t < result.len() ==> (#[trigger] result[t]) < shape.len(),
{
    lemma_preorder_all_exactly_once(shape, root);
    if q.len() > 0 && lowercase_of(q).len() > 0 {
        let order = preorder_all(shape, root);
        assert forall|i: int, j: int| 0 <= i < result.len() && 0 <= j < result.len() && i != j implies result[i]
            != result[j] by {
            if i < j {
                assert(key_before(
                    rank_key(q, shape, names, order, result[i] as int),
                    rank_key(q, shape, names, order, result[j] as int),
                ));
            } else {
                assert(key_before(
                    rank_key(q, shape, names, order, result[j] as int),
                    rank_key(q, shape, names, order, result[i] as int),
                ));
            }
        }
    }
}

} // verus!
