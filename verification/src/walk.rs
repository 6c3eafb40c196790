//! What the run makes of the commits that a walk brings up.
use vstd::prelude::*;
use std::collections::VecDeque;
use crate::oid::Oid;
use crate::oid_map::OidMap;

verus! {

/// The commits of a walk above `root`, with `root` in front where it is not among them.
pub open spec fn with_root(walked: Seq<Oid>, root: Oid) -> Seq<Oid> {
    if walked.contains(root) {
        walked
    } else {
        walked.insert(0, root)
    }
}

/// The test for a commit that is not `root`.
pub open spec fn other_than(root: Oid) -> spec_fn(Oid) -> bool {
    |commit: Oid| commit != root
}

/// The test for a commit that has another commit as its canonical one.
pub open spec fn is_moved(canonicals: Map<Oid, Oid>) -> spec_fn(Oid) -> bool {
    |commit: Oid| canonicals.contains_key(commit) && canonicals[commit] != commit
}

/// The commits but for `root`.
pub open spec fn others(commits: Seq<Oid>, root: Oid) -> Seq<Oid> {
    commits.filter(other_than(root))
}

/// A commit and the canonical commit of its tree.
#[derive(Clone, Copy, Debug)]
pub struct Candidate {
    pub commit: Oid,
    pub canonical: Oid,
}

/// The commits that have another commit as their canonical one.
pub open spec fn candidates(commits: Seq<Oid>, canonicals: Map<Oid, Oid>, root: Oid) -> Seq<
    Candidate,
> {
    others(commits, root).filter(is_moved(canonicals)).map_values(
        |commit: Oid| Candidate { commit, canonical: canonicals[commit] },
    )
}

fn contains(commits: &Vec<Oid>, wanted: Oid) -> (found: bool)
    ensures
        found == commits@.contains(wanted),
{
    let mut i: usize = 0;
    while i < commits.len()
        invariant
            i <= commits@.len(),
            forall|k: int| 0 <= k < i ==> commits@[k] != wanted,
        decreases commits@.len() - i,
    {
        if commits[i] == wanted {
            return true;
        }
        i += 1;
    }
    false
}

/// Puts `root` in front of the commits of a walk where it is not among them.
pub fn add_root(walked: Vec<Oid>, root: Oid) -> (commits: Vec<Oid>)
    ensures
        commits@ == with_root(walked@, root),
{
    let mut commits = walked;
    if !contains(&commits, root) {
        commits.insert(0, root);
    }
    commits
}

/// Whether there are commits but for `root`.
pub fn has_others(commits: &Vec<Oid>, root: Oid) -> (found: bool)
    ensures
        found == (others(commits@, root).len() > 0),
{
    let ghost other = other_than(root);
    let mut i: usize = 0;
    while i < commits.len()
        invariant
            i <= commits@.len(),
            other == other_than(root),
            forall|k: int| 0 <= k < i ==> !other(commits@[k]),
        decreases commits@.len() - i,
    {
        if commits[i] != root {
            proof {
                assert(other(commits@[i as int]));
                commits@.lemma_filter_contains(other, i as int);
            }
            return true;
        }
        i += 1;
    }
    proof {
        commits@.lemma_all_neg_filter_empty(other);
    }
    false
}

/// The commits that have another commit as their canonical one.
pub fn candidate_list(commits: &Vec<Oid>, canonicals: &OidMap<Oid>, root: Oid) -> (found: VecDeque<
    Candidate,
>)
    ensures
        found@ == candidates(commits@, canonicals@, root),
{
    let ghost other = other_than(root);
    let ghost moved = is_moved(canonicals@);
    let ghost pair = |commit: Oid| Candidate { commit, canonical: canonicals@[commit] };
    let mut found: VecDeque<Candidate> = VecDeque::new();
    let mut i: usize = 0;
    proof {
        reveal(Seq::filter);
        assert(commits@.take(0).filter(other).filter(moved).map_values(pair) =~= Seq::empty());
    }
    while i < commits.len()
        invariant
            i <= commits@.len(),
            other == other_than(root),
            moved == is_moved(canonicals@),
            pair == (|commit: Oid| Candidate { commit, canonical: canonicals@[commit] }),
            found@ == commits@.take(i as int).filter(other).filter(moved).map_values(pair),
        decreases commits@.len() - i,
    {
        let commit = commits[i];
        let ghost part = commits@.take(i as int).filter(other);
        proof {
            assert(commits@.take(i + 1) =~= commits@.take(i as int).push(commit));
            commits@.take(i as int).lemma_filter_push(commit, other);
            part.lemma_filter_push(commit, moved);
            assert(part.filter(moved).push(commit).map_values(pair) =~= part.filter(
                moved,
            ).map_values(pair).push(pair(commit)));
        }
        if commit != root {
            if let Some(canonical) = canonicals.get(commit) {
                if canonical != commit {
                    found.push_back(Candidate { commit, canonical });
                }
            }
        }
        i += 1;
    }
    proof {
        assert(commits@.take(i as int) =~= commits@);
    }
    found
}

} // verus!
