//! Matching a query against one path: the query's characters must occur in
//! the path in order, not necessarily side by side. Characters are compared
//! as they are; the filter hands over query and path in lower case. The
//! quality of a match is the tightest stretch of the path that holds the
//! whole query.

use vstd::prelude::*;

verus! {

/// `at` places the characters of `q` from the `qi`-th on at increasing
/// positions of `p`, none before `lo`, each on the same character.
pub open spec fn places(q: Seq<char>, p: Seq<char>, qi: int, lo: int, at: Seq<int>) -> bool {
    &&& at.len() == q.len() - qi
    &&& forall|k: int| 0 <= k < at.len() ==> lo <= #[trigger] at[k] < p.len() && q[qi + k] == p[at[k]]
    &&& forall|k1: int, k2: int| 0 <= k1 < k2 < at.len() ==> at[k1] < at[k2]
}

/// `at` gives, for each character of `q`, the position of `p` it is found at.
pub open spec fn is_embedding(q: Seq<char>, p: Seq<char>, at: Seq<int>) -> bool {
    places(q, p, 0, 0, at)
}

/// The characters of `q` occur in `p`, in order.
pub open spec fn occurs_in(q: Seq<char>, p: Seq<char>) -> bool {
    exists|at: Seq<int>| is_embedding(q, p, at)
}

/// Number of positions from the first to the last one used, both counted.
pub open spec fn span(at: Seq<int>) -> int {
    if at.len() == 0 {
        0
    } else {
        at.last() - at[0] + 1
    }
}

/// Where a left-to-right scan of `p` from position `pi` has found the
/// characters of `q` from the `qi`-th on, each at the first chance: the
/// position after the last one found, or `None` when `p` runs out.
pub open spec fn greedy_end(q: Seq<char>, p: Seq<char>, qi: int, pi: int) -> Option<int>
    decreases p.len() - pi,
{
    if qi >= q.len() {
        Some(pi)
    } else if pi >= p.len() || qi < 0 || pi < 0 {
        None
    } else if q[qi] == p[pi] {
        greedy_end(q, p, qi + 1, pi + 1)
    } else {
        greedy_end(q, p, qi, pi + 1)
    }
}

/// The end of the tightest match of `q` whose first character sits at
/// position `s` of `p`, if there is such a match.
pub open spec fn window_at(q: Seq<char>, p: Seq<char>, s: int) -> Option<int> {
    if 0 <= s < p.len() && q.len() > 0 && q[0] == p[s] {
        greedy_end(q, p, 1, s + 1)
    } else {
        None
    }
}

/// The best match of `q` that starts before position `upto` of `p`, as its
/// span and its start: the smallest span, and among equal spans the earliest
/// start.
pub open spec fn best_window(q: Seq<char>, p: Seq<char>, upto: int) -> Option<(int, int)>
    decreases upto,
{
    if upto <= 0 {
        None
    } else {
        let earlier = best_window(q, p, upto - 1);
        match window_at(q, p, upto - 1) {
            Some(e) => match earlier {
                Some(best) => if e - (upto - 1) < best.0 {
                    Some((e - (upto - 1), upto - 1))
                } else {
                    earlier
                },
                None => Some((e - (upto - 1), upto - 1)),
            },
            None => earlier,
        }
    }
}

/// The quality of the match of a query `q` in a path `p`: span and start of
/// the best match, or `None` when `q` does not match.
pub open spec fn quality(q: Seq<char>, p: Seq<char>) -> Option<(int, int)> {
    best_window(q, p, p.len() as int)
}

/// What the scan finds is a placement, and it ends where the scan says.
pub proof fn lemma_greedy_places(q: Seq<char>, p: Seq<char>, qi: int, pi: int) -> (at: Seq<int>)
    requires
        0 <= qi <= q.len(),
        0 <= pi <= p.len(),
        greedy_end(q, p, qi, pi) is Some,
    ensures
        places(q, p, qi, pi, at),
        pi <= greedy_end(q, p, qi, pi)->0 <= p.len(),
        qi < q.len() ==> at.last() == greedy_end(q, p, qi, pi)->0 - 1,
        qi == q.len() ==> greedy_end(q, p, qi, pi)->0 == pi,
    decreases p.len() - pi,
{
    if qi >= q.len() {
        Seq::empty()
    } else if q[qi] == p[pi] {
        let rest = lemma_greedy_places(q, p, qi + 1, pi + 1);
        let at = seq![pi] + rest;
        assert forall|k: int| 0 <= k < at.len() implies pi <= #[trigger] at[k] < p.len() && q[qi + k] == p[at[k]] by {
            if k > 0 {
                assert(at[k] == rest[k - 1]);
            }
        }
        assert forall|k1: int, k2: int| 0 <= k1 < k2 < at.len() implies at[k1] < at[k2] by {
            assert(at[k2] == rest[k2 - 1]);
            if k1 > 0 {
                assert(at[k1] == rest[k1 - 1]);
            }
        }
        if rest.len() > 0 {
            assert(at.last() == rest.last());
        }
        at
    } else {
        lemma_greedy_places(q, p, qi, pi + 1)
    }
}

/// No placement ends before the scan does.
pub proof fn lemma_greedy_earliest(q: Seq<char>, p: Seq<char>, qi: int, pi: int, at: Seq<int>)
    requires
        0 <= qi < q.len(),
        0 <= pi,
        places(q, p, qi, pi, at),
    ensures
        greedy_end(q, p, qi, pi) is Some,
        greedy_end(q, p, qi, pi)->0 <= at.last() + 1,
    decreases p.len() - pi,
{
    assert(pi <= at[0] < p.len());
    if q[qi] == p[pi] {
        if qi + 1 < q.len() {
            let rest = at.drop_first();
            assert forall|k: int| 0 <= k < rest.len() implies pi + 1 <= #[trigger] rest[k] < p.len() && q[qi + 1 + k] == p[rest[k]] by {
                assert(rest[k] == at[k + 1]);
                assert(at[0] < at[k + 1]);
            }
            assert forall|k1: int, k2: int| 0 <= k1 < k2 < rest.len() implies rest[k1] < rest[k2] by {
                assert(rest[k1] == at[k1 + 1]);
                assert(rest[k2] == at[k2 + 1]);
            }
            lemma_greedy_earliest(q, p, qi + 1, pi + 1, rest);
            assert(rest.last() == at.last());
        }
    } else {
        assert forall|k: int| 0 <= k < at.len() implies pi + 1 <= #[trigger] at[k] by {
            if k > 0 {
                assert(at[0] < at[k]);
            }
        }
        lemma_greedy_earliest(q, p, qi, pi + 1, at);
    }
}

/// A window at `s` is the span of an embedding that starts at `s`.
pub proof fn lemma_window_is_embedding(q: Seq<char>, p: Seq<char>, s: int) -> (at: Seq<int>)
    requires
        window_at(q, p, s) is Some,
    ensures
        is_embedding(q, p, at),
        at[0] == s,
        span(at) == window_at(q, p, s)->0 - s,
        span(at) >= q.len(),
{
    let rest = lemma_greedy_places(q, p, 1, s + 1);
    let at = seq![s] + rest;
    assert forall|k: int| 0 <= k < at.len() implies 0 <= #[trigger] at[k] < p.len() && q[0 + k] == p[at[k]] by {
        if k > 0 {
            assert(at[k] == rest[k - 1]);
        }
    }
    assert forall|k1: int, k2: int| 0 <= k1 < k2 < at.len() implies at[k1] < at[k2] by {
        assert(at[k2] == rest[k2 - 1]);
        if k1 > 0 {
            assert(at[k1] == rest[k1 - 1]);
        }
    }
    if rest.len() > 0 {
        assert(at.last() == rest.last());
    }
    lemma_span_holds_all(at);
    at
}

/// Increasing positions span at least as many positions as there are.
pub proof fn lemma_span_holds_all(at: Seq<int>)
    requires
        forall|k1: int, k2: int| 0 <= k1 < k2 < at.len() ==> at[k1] < at[k2],
    ensures
        span(at) >= at.len(),
    decreases at.len(),
{
    if at.len() > 1 {
        let front = at.drop_last();
        assert forall|k1: int, k2: int| 0 <= k1 < k2 < front.len() implies front[k1] < front[k2] by {
            assert(front[k1] == at[k1] && front[k2] == at[k2]);
        }
        lemma_span_holds_all(front);
        assert(front.last() == at[at.len() - 2]);
        assert(at[at.len() - 2] < at[at.len() - 1]);
        assert(front[0] == at[0]);
    }
}

/// The window at the start of an embedding is no wider than the embedding.
pub proof fn lemma_embedding_has_window(q: Seq<char>, p: Seq<char>, at: Seq<int>)
    requires
        q.len() > 0,
        is_embedding(q, p, at),
    ensures
        0 <= at[0] < p.len(),
        window_at(q, p, at[0]) is Some,
        window_at(q, p, at[0])->0 - at[0] <= span(at),
{
    let s = at[0];
    assert(q[0int + 0int] == p[at[0]]);
    if q.len() > 1 {
        let rest = at.drop_first();
        assert forall|k: int| 0 <= k < rest.len() implies s + 1 <= #[trigger] rest[k] < p.len() && q[1 + k] == p[rest[k]] by {
            assert(rest[k] == at[k + 1]);
            assert(at[0] < at[k + 1]);
            assert(q[0int + (k + 1)] == p[at[k + 1]]);
        }
        assert forall|k1: int, k2: int| 0 <= k1 < k2 < rest.len() implies rest[k1] < rest[k2] by {
            assert(rest[k1] == at[k1 + 1]);
            assert(rest[k2] == at[k2 + 1]);
        }
        lemma_greedy_earliest(q, p, 1, s + 1, rest);
        assert(rest.last() == at.last());
    }
}

/// The best window before `upto` is a window, and no embedding that starts
/// before `upto` has a smaller span, or the same span and an earlier start.
pub proof fn lemma_best_window(q: Seq<char>, p: Seq<char>, upto: int)
    requires
        q.len() > 0,
    ensures
        match best_window(q, p, upto) {
            Some(best) => {
                &&& 0 <= best.1 < upto
                &&& window_at(q, p, best.1) == Some(best.1 + best.0)
                &&& forall|at: Seq<int>| #[trigger]
                    is_embedding(q, p, at) && at[0] < upto ==> best.0 < span(at) || (best.0 == span(at) && best.1
                        <= at[0])
            },
            None => forall|at: Seq<int>| #[trigger] is_embedding(q, p, at) ==> at[0] >= upto,
        },
    decreases upto,
{
    if upto <= 0 {
        assert forall|at: Seq<int>| #[trigger] is_embedding(q, p, at) implies at[0] >= upto by {
            assert(0 <= at[0]);
        }
    } else {
        lemma_best_window(q, p, upto - 1);
        let earlier = best_window(q, p, upto - 1);
        let now = best_window(q, p, upto);
        assert forall|at: Seq<int>| #[trigger] is_embedding(q, p, at) && at[0] < upto implies (match now {
            Some(best) => best.0 < span(at) || (best.0 == span(at) && best.1 <= at[0]),
            None => false,
        }) by {
            lemma_embedding_has_window(q, p, at);
        }
    }
}

/// What `quality` means: a query that matches a path has an embedding with
/// the span and start that `quality` gives, and every other embedding has a
/// larger span, or the same span and no earlier start. A query that does not
/// match has no quality.
pub proof fn lemma_quality_is_tightest(q: Seq<char>, p: Seq<char>)
    requires
        q.len() > 0,
    ensures
        quality(q, p) is Some <==> occurs_in(q, p),
        quality(q, p) matches Some(best) ==> {
            &&& best.0 >= q.len()
            &&& 0 <= best.1
            &&& best.1 + best.0 <= p.len()
            &&& exists|at: Seq<int>| is_embedding(q, p, at) && at[0] == best.1 && span(at) == best.0
            &&& forall|at: Seq<int>| #[trigger]
                is_embedding(q, p, at) ==> best.0 < span(at) || (best.0 == span(at) && best.1 <= at[0])
        },
{
    lemma_best_window(q, p, p.len() as int);
    match quality(q, p) {
        Some(best) => {
            let at = lemma_window_is_embedding(q, p, best.1);
            let rest = lemma_greedy_places(q, p, 1, best.1 + 1);
            assert forall|at2: Seq<int>| #[trigger] is_embedding(q, p, at2) implies best.0 < span(at2) || (best.0
                == span(at2) && best.1 <= at2[0]) by {
                assert(at2[0] < p.len());
            }
        },
        None => {
            if occurs_in(q, p) {
                let at = choose|at: Seq<int>| is_embedding(q, p, at);
                assert(at[0] < p.len());
            }
        },
    }
}

/// Scans `p` from position `pi` for the characters of `q` from the `qi`-th
/// on and returns the position after the last one found.
pub fn greedy_from(q: &Vec<char>, p: &Vec<char>, qi: usize, pi: usize) -> (r: Option<usize>)
    requires
        qi <= q@.len(),
        pi <= p@.len(),
    ensures
        match r {
            Some(e) => greedy_end(q@, p@, qi as int, pi as int) == Some(e as int),
            None => greedy_end(q@, p@, qi as int, pi as int) is None,
        },
{
    let mut i: usize = qi;
    let mut j: usize = pi;
    while i < q.len() && j < p.len()
        invariant
            i <= q@.len(),
            j <= p@.len(),
            greedy_end(q@, p@, i as int, j as int) == greedy_end(q@, p@, qi as int, pi as int),
        decreases p@.len() - j,
    {
        if q[i] == p[j] {
            i += 1;
        }
        j += 1;
    }
    if i >= q.len() {
        Some(j)
    } else {
        None
    }
}

/// The quality of the match of `q` in `p`, as span and start of the best
/// match; `None` when `q` does not match.
pub fn best_match(q: &Vec<char>, p: &Vec<char>) -> (r: Option<(usize, usize)>)
    requires
        q@.len() > 0,
    ensures
        match r {
            Some(best) => quality(q@, p@) == Some((best.0 as int, best.1 as int)),
            None => quality(q@, p@) is None,
        },
{
    let first = q[0];
    let mut best: Option<(usize, usize)> = None;
    let mut s: usize = 0;
    while s < p.len()
        invariant
            q@.len() > 0,
            s <= p@.len(),
            first == q@[0],
            match best {
                Some(b) => best_window(q@, p@, s as int) == Some((b.0 as int, b.1 as int)),
                None => best_window(q@, p@, s as int) is None,
            },
        decreases p@.len() - s,
    {
        if p[s] == first {
            match greedy_from(q, p, 1, s + 1) {
                Some(e) => {
                    proof {
                        let at = lemma_greedy_places(q@, p@, 1, s + 1);
                    }
                    let width = e - s;
                    match best {
                        Some(b) => {
                            if width < b.0 {
                                best = Some((width, s));
                            }
                        },
                        None => {
                            best = Some((width, s));
                        },
                    }
                },
                None => {},
            }
        }
        s += 1;
    }
    best
}

} // verus!
