//! The scan result a tree is built from, and the checks that decide whether
//! the records describe one tree.

use vstd::prelude::*;

verus! {

/// One scanned entry. Its position in the sequence of records is its index.
pub struct Record {
    /// Index of the record of the directory that holds the entry; `None` for
    /// the root.
    pub parent: Option<usize>,
    /// The entry's own name.
    pub name: String,
    /// Whether the entry is a directory.
    pub is_directory: bool,
    /// Size in bytes, for a file.
    pub size: Option<u64>,
}

/// Why a sequence of records is not a tree.
#[derive(Clone, Copy, Debug, PartialEq, Eq, Structural)]
pub enum TreeError {
    /// A record names a parent index beyond the last record.
    MissingParent,
    /// A record names a file as its parent.
    ParentNotDirectory,
    /// More than one record has no parent.
    MultipleRoots,
    /// Following parent links from some record never arrives at a root.
    Cycle,
}

/// The parent link of every record.
pub open spec fn parents_of(records: Seq<Record>) -> Seq<Option<usize>> {
    Seq::new(records.len(), |i: int| records[i].parent)
}

/// Following parent links from `i` arrives at a node without a parent after
/// exactly `steps` links.
pub open spec fn reaches_root(parents: Seq<Option<usize>>, i: int, steps: nat) -> bool
    decreases steps,
{
    0 <= i < parents.len() && match parents[i] {
        None => steps == 0,
        Some(p) => steps > 0 && reaches_root(parents, p as int, (steps - 1) as nat),
    }
}

/// The node arrived at by following `k` parent links from `i`, if the links
/// lead that far without leaving the table.
pub open spec fn climb(parents: Seq<Option<usize>>, i: int, k: nat) -> Option<int>
    decreases k,
{
    if k == 0 {
        if 0 <= i < parents.len() {
            Some(i)
        } else {
            None
        }
    } else {
        match climb(parents, i, (k - 1) as nat) {
            Some(c) => match parents[c] {
                Some(p) => if p < parents.len() {
                    Some(p as int)
                } else {
                    None
                },
                None => None,
            },
            None => None,
        }
    }
}

/// One of the first `upto` records names a parent beyond the last record.
pub open spec fn missing_parent_before(records: Seq<Record>, upto: int) -> bool {
    exists|i: int| 0 <= i < upto && (#[trigger] records[i]).parent is Some && records[i].parent->0 >= records.len()
}

/// One of the first `upto` records names a file in the table as its parent.
pub open spec fn file_parent_before(records: Seq<Record>, upto: int) -> bool {
    exists|i: int|
        0 <= i < upto && (#[trigger] records[i]).parent is Some && records[i].parent->0 < records.len()
            && !records[records[i].parent->0 as int].is_directory
}

/// Two of the first `upto` records have no parent.
pub open spec fn two_roots_before(records: Seq<Record>, upto: int) -> bool {
    exists|i: int, j: int|
        0 <= i < j < upto && (#[trigger] records[i]).parent is None && (#[trigger] records[j]).parent is None
}

/// Record `i` arrives at a root in fewer steps than there are records.
pub open spec fn rooted(records: Seq<Record>, i: int) -> bool {
    exists|s: nat| s < records.len() && #[trigger] reaches_root(parents_of(records), i, s)
}

/// Some record never arrives at a root.
pub open spec fn has_cycle(records: Seq<Record>) -> bool {
    exists|i: int| 0 <= i < records.len() && !#[trigger] rooted(records, i)
}

/// The first reason, in the order of the variants of `TreeError`, why the
/// records are not a tree; `None` when they are one.
pub open spec fn fault(records: Seq<Record>) -> Option<TreeError> {
    if missing_parent_before(records, records.len() as int) {
        Some(TreeError::MissingParent)
    } else if file_parent_before(records, records.len() as int) {
        Some(TreeError::ParentNotDirectory)
    } else if two_roots_before(records, records.len() as int) {
        Some(TreeError::MultipleRoots)
    } else if has_cycle(records) {
        Some(TreeError::Cycle)
    } else {
        None
    }
}

/// The number of steps to the root is unique.
pub proof fn lemma_reaches_root_unique(parents: Seq<Option<usize>>, i: int, s1: nat, s2: nat)
    requires
        reaches_root(parents, i, s1),
        reaches_root(parents, i, s2),
    ensures
        s1 == s2,
    decreases s1,
{
    if let Some(p) = parents[i] {
        lemma_reaches_root_unique(parents, p as int, (s1 - 1) as nat, (s2 - 1) as nat);
    }
}

/// A node from which a root is `s` steps away is `s + k` steps away from the
/// root for a node that climbs to it in `k` steps.
pub proof fn lemma_climb_then_reach(parents: Seq<Option<usize>>, i: int, k: nat, c: int, s: nat)
    requires
        climb(parents, i, k) == Some(c),
        reaches_root(parents, c, s),
    ensures
        reaches_root(parents, i, s + k),
    decreases k,
{
    if k > 0 {
        let below = climb(parents, i, (k - 1) as nat)->0;
        assert(reaches_root(parents, below, s + 1));
        lemma_climb_then_reach(parents, i, (k - 1) as nat, below, s + 1);
    }
}

/// If `i` is `s` steps from the root and climbs to `c` in `k` steps, then `k`
/// is at most `s` and `c` is `s - k` steps from the root.
pub proof fn lemma_reach_after_climb(parents: Seq<Option<usize>>, i: int, k: nat, c: int, s: nat)
    requires
        climb(parents, i, k) == Some(c),
        reaches_root(parents, i, s),
    ensures
        k <= s,
        reaches_root(parents, c, (s - k) as nat),
    decreases k,
{
    if k > 0 {
        let below = climb(parents, i, (k - 1) as nat)->0;
        lemma_reach_after_climb(parents, i, (k - 1) as nat, below, s);
    }
}

/// A table in which some node arrives at a root holds a node without parent.
pub proof fn lemma_reach_finds_root(parents: Seq<Option<usize>>, i: int, s: nat) -> (r: int)
    requires
        reaches_root(parents, i, s),
    ensures
        0 <= r < parents.len(),
        parents[r] is None,
    decreases s,
{
    match parents[i] {
        None => i,
        Some(p) => lemma_reach_finds_root(parents, p as int, (s - 1) as nat),
    }
}

/// Checks every parent link and finds the root. Returns the root's index
/// (`None` when no record is without parent), or the first of the faults
/// `MissingParent`, `ParentNotDirectory`, `MultipleRoots` that the records
/// show.
pub fn check_links(records: &Vec<Record>) -> (r: Result<Option<usize>, TreeError>)
    ensures
        match r {
            Ok(root) => {
                &&& !missing_parent_before(records@, records@.len() as int)
                &&& !file_parent_before(records@, records@.len() as int)
                &&& !two_roots_before(records@, records@.len() as int)
                &&& match root {
                    Some(r) => r < records@.len() && records@[r as int].parent is None,
                    None => forall|i: int| 0 <= i < records@.len() ==> (#[trigger] records@[i]).parent is Some,
                }
            },
            Err(e) => fault(records@) == Some(e) && e != TreeError::Cycle,
        },
{
    let n = records.len();
    let mut missing = false;
    let mut file_parent = false;
    let mut two_roots = false;
    let mut root: Option<usize> = None;
    let mut i: usize = 0;
    while i < n
        invariant
            n == records@.len(),
            i <= n,
            missing == missing_parent_before(records@, i as int),
            file_parent == file_parent_before(records@, i as int),
            two_roots == two_roots_before(records@, i as int),
            match root {
                Some(r) => r < i && records@[r as int].parent is None,
                None => forall|j: int| 0 <= j < i ==> (#[trigger] records@[j]).parent is Some,
            },
        decreases n - i,
    {
        let ghost seen_missing = missing_parent_before(records@, i as int);
        let ghost seen_file = file_parent_before(records@, i as int);
        let ghost seen_two = two_roots_before(records@, i as int);
        match records[i].parent {
            Some(p) => {
                if p >= n {
                    missing = true;
                } else if !records[p].is_directory {
                    file_parent = true;
                }
            },
            None => {
                if root.is_some() {
                    two_roots = true;
                    proof {
                        let r = root->0 as int;
                        assert(records@[r].parent is None && records@[i as int].parent is None);
                    }
                } else {
                    root = Some(i);
                }
            },
        }
        proof {
            let cur = records@[i as int];
            if seen_missing {
                let w = choose|w: int|
                    0 <= w < i && (#[trigger] records@[w]).parent is Some && records@[w].parent->0 >= records@.len();
                assert(records@[w].parent is Some);
            }
            if seen_file {
                let w = choose|w: int|
                    0 <= w < i && (#[trigger] records@[w]).parent is Some && records@[w].parent->0 < records@.len()
                        && !records@[records@[w].parent->0 as int].is_directory;
                assert(records@[w].parent is Some);
            }
            if seen_two {
                let (a, b) = choose|a: int, b: int|
                    0 <= a < b < i && (#[trigger] records@[a]).parent is None && (#[trigger] records@[b]).parent
                        is None;
                assert(records@[a].parent is None && records@[b].parent is None);
            }
            assert(missing == missing_parent_before(records@, i + 1));
            assert(file_parent == file_parent_before(records@, i + 1));
            assert(two_roots == two_roots_before(records@, i + 1));
        }
        i += 1;
    }
    if missing {
        Err(TreeError::MissingParent)
    } else if file_parent {
        Err(TreeError::ParentNotDirectory)
    } else if two_roots {
        Err(TreeError::MultipleRoots)
    } else {
        Ok(root)
    }
}

/// Measures how many parent links lie between each record and the root.
/// Fails with `Cycle` when some record does not arrive at a root in fewer
/// steps than there are records.
pub fn compute_depths(records: &Vec<Record>) -> (r: Result<Vec<usize>, TreeError>)
    requires
        !missing_parent_before(records@, records@.len() as int),
    ensures
        match r {
            Ok(depths) => {
                &&& !has_cycle(records@)
                &&& depths@.len() == records@.len()
                &&& forall|i: int|
                    0 <= i < records@.len() ==> (#[trigger] depths@[i]) < records@.len() && reaches_root(
                        parents_of(records@),
                        i,
                        depths@[i] as nat,
                    )
            },
            Err(e) => e == TreeError::Cycle && has_cycle(records@),
        },
{
    let n = records.len();
    let ghost parents = parents_of(records@);
    let mut depths: Vec<usize> = Vec::new();
    let mut i: usize = 0;
    while i < n
        invariant
            n == records@.len(),
            i <= n,
            parents == parents_of(records@),
            !missing_parent_before(records@, records@.len() as int),
            depths@.len() == i,
            forall|j: int| 0 <= j < i ==> (#[trigger] depths@[j]) < n && reaches_root(parents, j, depths@[j] as nat),
        decreases n - i,
    {
        let mut cur: usize = i;
        let mut steps: usize = 0;
        let mut found = false;
        while steps < n && !found
            invariant
                n == records@.len(),
                i < n,
                parents == parents_of(records@),
                !missing_parent_before(records@, records@.len() as int),
                cur < n,
                steps <= n,
                climb(parents, i as int, steps as nat) == Some(cur as int),
                found ==> steps < n && parents[cur as int] is None,
            decreases n - steps, (if found { 0int } else { 1int }),
        {
            match records[cur].parent {
                None => {
                    found = true;
                },
                Some(p) => {
                    assert(p < n) by {
                        assert(records@[cur as int].parent is Some);
                    }
                    assert(climb(parents, i as int, (steps + 1) as nat) == Some(p as int));
                    cur = p;
                    steps += 1;
                },
            }
        }
        if !found {
            proof {
                if rooted(records@, i as int) {
                    let s = choose|s: nat| s < records@.len() && #[trigger] reaches_root(parents, i as int, s);
                    lemma_reach_after_climb(parents, i as int, steps as nat, cur as int, s);
                }
                assert(!rooted(records@, i as int));
            }
            return Err(TreeError::Cycle);
        }
        proof {
            assert(reaches_root(parents, cur as int, 0));
            lemma_climb_then_reach(parents, i as int, steps as nat, cur as int, 0);
        }
        depths.push(steps);
        i += 1;
    }
    proof {
        assert forall|j: int| 0 <= j < records@.len() implies #[trigger] rooted(records@, j) by {
            assert(reaches_root(parents, j, depths@[j] as nat));
        }
    }
    Ok(depths)
}

} // verus!
