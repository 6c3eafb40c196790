//! Where commits have gone that a run has written anew.
use vstd::prelude::*;
use crate::oid::Oid;
use crate::oid_map::OidMap;

verus! {

/// The commit that stands in the place of `commit` after one rewrite.
pub open spec fn hop(rewrites: Map<Oid, Oid>, commit: Oid) -> Oid {
    if rewrites.contains_key(commit) {
        rewrites[commit]
    } else {
        commit
    }
}

/// The commit that stands in the place of `commit` after `n` rewrites.
pub open spec fn after(rewrites: Map<Oid, Oid>, commit: Oid, n: nat) -> Oid
    decreases n,
{
    if n == 0 {
        commit
    } else {
        hop(rewrites, after(rewrites, commit, (n - 1) as nat))
    }
}

/// No rewrite leads on from `commit`.
pub open spec fn is_end(rewrites: Map<Oid, Oid>, commit: Oid) -> bool {
    hop(rewrites, commit) == commit
}

/// The commit at which the rewrites of `commit` end. There is none where they go round in a circle.
pub open spec fn chain_end(rewrites: Map<Oid, Oid>, commit: Oid) -> Option<Oid> {
    if exists|n: nat| is_end(rewrites, #[trigger] after(rewrites, commit, n)) {
        Some(
            after(
                rewrites,
                commit,
                choose|n: nat| is_end(rewrites, #[trigger] after(rewrites, commit, n)),
            ),
        )
    } else {
        None
    }
}

/// Once the end is reached, more rewrites change nothing.
proof fn lemma_stays(rewrites: Map<Oid, Oid>, commit: Oid, n: nat, m: nat)
    requires
        is_end(rewrites, after(rewrites, commit, n)),
        n <= m,
    ensures
        after(rewrites, commit, m) == after(rewrites, commit, n),
    decreases m,
{
    if n < m {
        lemma_stays(rewrites, commit, n, (m - 1) as nat);
    }
}

/// The end does not depend on the number of rewrites by which it is reached.
pub proof fn chain_end_is_reached(rewrites: Map<Oid, Oid>, commit: Oid, n: nat)
    requires
        is_end(rewrites, after(rewrites, commit, n)),
    ensures
        chain_end(rewrites, commit) == Some(after(rewrites, commit, n)),
{
    let m = choose|m: nat| is_end(rewrites, #[trigger] after(rewrites, commit, m));
    if n <= m {
        lemma_stays(rewrites, commit, n, m);
    } else {
        lemma_stays(rewrites, commit, m, n);
    }
}

proof fn lemma_shifted(rewrites: Map<Oid, Oid>, commit: Oid, i: nat, j: nat, k: nat)
    requires
        after(rewrites, commit, i) == after(rewrites, commit, j),
    ensures
        after(rewrites, commit, i + k) == after(rewrites, commit, j + k),
    decreases k,
{
    if k > 0 {
        lemma_shifted(rewrites, commit, i, j, (k - 1) as nat);
    }
}

proof fn lemma_circle(rewrites: Map<Oid, Oid>, commit: Oid, i: nat, j: nat, n: nat)
    requires
        i < j,
        after(rewrites, commit, i) == after(rewrites, commit, j),
        forall|k: nat| k <= j ==> !is_end(rewrites, #[trigger] after(rewrites, commit, k)),
    ensures
        !is_end(rewrites, after(rewrites, commit, n)),
    decreases n,
{
    if n > j {
        lemma_shifted(rewrites, commit, i, j, (n - j) as nat);
        lemma_circle(rewrites, commit, i, j, (i + (n - j)) as nat);
    }
}

/// Rewrites that have not ended after as many steps as there are rewritten commits never end.
proof fn lemma_endless(rewrites: Map<Oid, Oid>, commit: Oid)
    requires
        rewrites.dom().finite(),
        forall|k: nat|
            k <= rewrites.dom().len() ==> !is_end(rewrites, #[trigger] after(rewrites, commit, k)),
    ensures
        chain_end(rewrites, commit) is None,
{
    let size = rewrites.dom().len();
    let path = Seq::new(size + 1, |k: int| after(rewrites, commit, k as nat));
    if path.no_duplicates() {
        path.unique_seq_to_set();
        assert(path.to_set().subset_of(rewrites.dom())) by {
            assert forall|c: Oid| path.to_set().contains(c) implies rewrites.dom().contains(c) by {
                let k = choose|k: int| 0 <= k < path.len() && path[k] == c;
                assert(!is_end(rewrites, after(rewrites, commit, k as nat)));
            }
        }
        vstd::set_lib::lemma_len_subset(path.to_set(), rewrites.dom());
        assert(false);
    }
    let (i, j) = choose|i: int, j: int|
        0 <= i < path.len() && 0 <= j < path.len() && i != j && path[i] == path[j];
    let (a, b) = if i < j {
        (i as nat, j as nat)
    } else {
        (j as nat, i as nat)
    };
    assert forall|n: nat| !is_end(rewrites, #[trigger] after(rewrites, commit, n)) by {
        lemma_circle(rewrites, commit, a, b, n);
    }
}

/// Follows the rewrites of a commit to their end.
pub fn follow(rewrites: &OidMap<Oid>, commit: Oid) -> (end: Option<Oid>)
    ensures
        end == chain_end(rewrites@, commit),
{
    let limit: usize = rewrites.len();
    let mut current = commit;
    let mut steps: usize = 0;
    loop
        invariant
            steps <= limit,
            rewrites@.dom().finite(),
            limit == rewrites@.dom().len(),
            current == after(rewrites@, commit, steps as nat),
            forall|k: nat| k < steps ==> !is_end(rewrites@, #[trigger] after(rewrites@, commit, k)),
        decreases limit - steps,
    {
        match rewrites.get(current) {
            Some(next) => {
                if next == current {
                    proof {
                        chain_end_is_reached(rewrites@, commit, steps as nat);
                    }
                    return Some(current);
                }
                if steps == limit {
                    proof {
                        lemma_endless(rewrites@, commit);
                    }
                    return None;
                }
                current = next;
                steps += 1;
            },
            None => {
                proof {
                    chain_end_is_reached(rewrites@, commit, steps as nat);
                }
                return Some(current);
            },
        }
    }
}

/// What becomes of a tag.
#[derive(Clone, Copy, Debug)]
pub enum Target {
    /// It stays where it is.
    Stays,
    /// It goes to another commit.
    Moves(Oid),
    /// The rewrites of its commit go round in a circle.
    Endless,
}

/// What becomes of a tag at `commit`: it follows the rewrites of its commit; where there are none,
/// it goes to the canonical commit of a duplicate.
pub open spec fn target_of(
    rewrites: Map<Oid, Oid>,
    duplicates: Map<Oid, Oid>,
    commit: Oid,
) -> Target {
    match chain_end(rewrites, commit) {
        None => Target::Endless,
        Some(end) => if end != commit {
            Target::Moves(end)
        } else if duplicates.contains_key(commit) {
            Target::Moves(duplicates[commit])
        } else {
            Target::Stays
        },
    }
}

/// What becomes of a tag at `commit`.
pub fn tag_target(rewrites: &OidMap<Oid>, duplicates: &OidMap<Oid>, commit: Oid) -> (target: Target)
    ensures
        target == target_of(rewrites@, duplicates@, commit),
{
    match follow(rewrites, commit) {
        None => Target::Endless,
        Some(end) => {
            if end != commit {
                Target::Moves(end)
            } else {
                match duplicates.get(commit) {
                    Some(canonical) => Target::Moves(canonical),
                    None => Target::Stays,
                }
            }
        },
    }
}

} // verus!
