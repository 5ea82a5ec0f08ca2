//! The order in which matches are shown: by the quality of the match, with
//! the place in pre-order as the last word.

use vstd::prelude::*;
use vstd::seq_lib::lemma_multiset_commutative;

verus! {

/// A matching node with everything that decides its place in the result.
#[derive(Clone, Copy, Debug)]
pub struct Ranked {
    /// Span of the best match of the query in the node's path.
    pub span: usize,
    /// Position in the path at which the best match starts.
    pub start: usize,
    /// Length of the path in characters.
    pub length: usize,
    /// Place of the node in the pre-order listing of the tree.
    pub position: usize,
    /// Index of the node.
    pub node: usize,
}

/// `a` is shown before `b`: it has the smaller span, or else the earlier
/// start, or else the shorter path, or else the earlier place in pre-order.
pub open spec fn ranks_before(a: Ranked, b: Ranked) -> bool {
    a.span < b.span || (a.span == b.span && (a.start < b.start || (a.start == b.start && (a.length < b.length || (
    a.length == b.length && a.position < b.position)))))
}

/// No entry of `s` is shown before an entry that precedes it in `s`.
pub open spec fn in_rank_order(s: Seq<Ranked>) -> bool {
    forall|i: int, j: int| 0 <= i < j < s.len() ==> !ranks_before(#[trigger] s[j], #[trigger] s[i])
}

/// Whether `a` is shown before `b`.
pub fn ranked_before(a: &Ranked, b: &Ranked) -> (r: bool)
    ensures
        r == ranks_before(*a, *b),
{
    if a.span != b.span {
        a.span < b.span
    } else if a.start != b.start {
        a.start < b.start
    } else if a.length != b.length {
        a.length < b.length
    } else {
        a.position < b.position
    }
}

/// Merges two ordered runs into one.
fn merge(a: &Vec<Ranked>, b: &Vec<Ranked>) -> (r: Vec<Ranked>)
    requires
        in_rank_order(a@),
        in_rank_order(b@),
    ensures
        in_rank_order(r@),
        r@.to_multiset() == a@.to_multiset().add(b@.to_multiset()),
{
    let mut out: Vec<Ranked> = Vec::new();
    let mut i: usize = 0;
    let mut j: usize = 0;
    proof {
        let none = Seq::<Ranked>::empty();
        none.to_multiset_ensures();
        assert(out@ =~= none && a@.take(0) =~= none && b@.take(0) =~= none);
        assert(none.to_multiset() =~= none.to_multiset().add(none.to_multiset()));
    }
    while i < a.len() || j < b.len()
        invariant
            i <= a@.len(),
            j <= b@.len(),
            in_rank_order(a@),
            in_rank_order(b@),
            in_rank_order(out@),
            out@.to_multiset() == a@.take(i as int).to_multiset().add(b@.take(j as int).to_multiset()),
            forall|t: int| 0 <= t < out@.len() && i < a@.len() ==> !ranks_before(a@[i as int], #[trigger] out@[t]),
            forall|t: int| 0 <= t < out@.len() && j < b@.len() ==> !ranks_before(b@[j as int], #[trigger] out@[t]),
        decreases a@.len() - i + b@.len() - j,
    {
        let from_a = if j >= b.len() {
            true
        } else if i >= a.len() {
            false
        } else {
            !ranked_before(&b[j], &a[i])
        };
        let ghost before = out@;
        if from_a {
            let x = a[i];
            out.push(x);
            proof {
                before.to_multiset_ensures();
                a@.take(i as int).to_multiset_ensures();
                assert(a@.take(i + 1) =~= a@.take(i as int).push(x));
                assert(out@.to_multiset() =~= a@.take(i + 1).to_multiset().add(b@.take(j as int).to_multiset()));
                assert forall|t: int| 0 <= t < out@.len() && i + 1 < a@.len() implies !ranks_before(
                    a@[i + 1],
                    #[trigger] out@[t],
                ) by {
                    assert(!ranks_before(a@[i + 1], a@[i as int]));
                    if t < before.len() {
                        assert(!ranks_before(a@[i as int], before[t]));
                    }
                }
                assert forall|u: int, v: int| 0 <= u < v < out@.len() implies !ranks_before(
                    #[trigger] out@[v],
                    #[trigger] out@[u],
                ) by {
                    if v < before.len() {
                        assert(!ranks_before(before[v], before[u]));
                    } else {
                        assert(!ranks_before(a@[i as int], before[u]));
                    }
                }
            }
            i += 1;
        } else {
            let x = b[j];
            out.push(x);
            proof {
                before.to_multiset_ensures();
                b@.take(j as int).to_multiset_ensures();
                assert(b@.take(j + 1) =~= b@.take(j as int).push(x));
                assert(out@.to_multiset() =~= a@.take(i as int).to_multiset().add(b@.take(j + 1).to_multiset()));
                assert forall|t: int| 0 <= t < out@.len() && j + 1 < b@.len() implies !ranks_before(
                    b@[j + 1],
                    #[trigger] out@[t],
                ) by {
                    assert(!ranks_before(b@[j + 1], b@[j as int]));
                    if t < before.len() {
                        assert(!ranks_before(b@[j as int], before[t]));
                    }
                }
                assert forall|u: int, v: int| 0 <= u < v < out@.len() implies !ranks_before(
                    #[trigger] out@[v],
                    #[trigger] out@[u],
                ) by {
                    if v < before.len() {
                        assert(!ranks_before(before[v], before[u]));
                    } else {
                        assert(!ranks_before(b@[j as int], before[u]));
                    }
                }
            }
            j += 1;
        }
    }
    proof {
        assert(a@.take(i as int) =~= a@);
        assert(b@.take(j as int) =~= b@);
    }
    out
}

/// Orders the entries of `v` from `lo` up to `hi`.
fn sort_range(v: &Vec<Ranked>, lo: usize, hi: usize) -> (r: Vec<Ranked>)
    requires
        lo <= hi <= v@.len(),
    ensures
        in_rank_order(r@),
        r@.to_multiset() == v@.subrange(lo as int, hi as int).to_multiset(),
    decreases hi - lo,
{
    if hi - lo <= 1 {
        let mut out: Vec<Ranked> = Vec::new();
        if lo < hi {
            out.push(v[lo]);
        }
        assert(out@ =~= v@.subrange(lo as int, hi as int));
        out
    } else {
        let mid = lo + (hi - lo) / 2;
        let a = sort_range(v, lo, mid);
        let b = sort_range(v, mid, hi);
        proof {
            let left = v@.subrange(lo as int, mid as int);
            let right = v@.subrange(mid as int, hi as int);
            assert(v@.subrange(lo as int, hi as int) =~= left + right);
            lemma_multiset_commutative(left, right);
        }
        merge(&a, &b)
    }
}

/// Returns the entries of `v` in the order in which they are shown.
pub fn sort_ranked(v: &Vec<Ranked>) -> (r: Vec<Ranked>)
    ensures
        in_rank_order(r@),
        r@.to_multiset() == v@.to_multiset(),
{
    assert(v@.subrange(0, v@.len() as int) =~= v@);
    sort_range(v, 0, v.len())
}

} // verus!
