//! Which commits stand for others.
use vstd::prelude::*;
use crate::canonical::{
    canonicals, duplicates, every_commit_has_a_canonical, groups, ids, is_canonical, known,
    lemma_canonical_unique, lemma_distinct, lemma_known, members, shared_of, tree_of, trees,
    CommitInfo,
};
use crate::oid::Oid;
use crate::refs::{has_head, is_unbranched, unbranched, Ref};
use crate::walk::{candidates, is_moved, others};

verus! {

/// Two commits have one canonical commit when they have one tree, and only then.
pub proof fn one_tree_one_canonical(infos: Seq<CommitInfo>, a: Oid, b: Oid)
    requires
        ids(infos).contains(a),
        ids(infos).contains(b),
    ensures
        canonicals(infos)[a] == canonicals(infos)[b] <==> tree_of(infos, a) == tree_of(infos, b),
{
    every_commit_has_a_canonical(infos, a);
    every_commit_has_a_canonical(infos, b);
    if tree_of(infos, a) == tree_of(infos, b) {
        assert(is_canonical(infos, a, canonicals(infos)[b]));
        lemma_canonical_unique(infos, a, canonicals(infos)[a], canonicals(infos)[b]);
    }
}

/// A canonical commit is its own canonical commit.
pub proof fn canonicals_stand_for_themselves(infos: Seq<CommitInfo>, commit: Oid)
    requires
        ids(infos).contains(commit),
    ensures
        canonicals(infos).contains_key(canonicals(infos)[commit]),
        canonicals(infos)[canonicals(infos)[commit]] == canonicals(infos)[commit],
{
    every_commit_has_a_canonical(infos, commit);
    one_tree_one_canonical(infos, commit, canonicals(infos)[commit]);
}

/// A duplicate leads to another commit with its tree that is no duplicate.
pub proof fn duplicates_lead_to_canonicals(infos: Seq<CommitInfo>, commit: Oid)
    requires
        duplicates(infos).contains_key(commit),
    ensures
        duplicates(infos)[commit] != commit,
        ids(infos).contains(duplicates(infos)[commit]),
        tree_of(infos, duplicates(infos)[commit]) == tree_of(infos, commit),
        !duplicates(infos).contains_key(duplicates(infos)[commit]),
{
    every_commit_has_a_canonical(infos, commit);
    canonicals_stand_for_themselves(infos, commit);
}

/// A commit that is less deep than all others with its tree is canonical for them. The root of a
/// run, at depth zero, is such a commit.
pub proof fn the_shallowest_is_canonical(infos: Seq<CommitInfo>, commit: Oid, shallowest: Oid)
    requires
        ids(infos).contains(commit),
        ids(infos).contains(shallowest),
        tree_of(infos, shallowest) == tree_of(infos, commit),
        forall|other: Oid| #[trigger]
            ids(infos).contains(other) && other != shallowest && tree_of(infos, other) == tree_of(
                infos,
                commit,
            ) ==> known(infos)[shallowest].depth < known(infos)[other].depth,
    ensures
        canonicals(infos)[commit] == shallowest,
{
    every_commit_has_a_canonical(infos, commit);
    let canonical = canonicals(infos)[commit];
    assert(!known(infos)[shallowest].ranks_before(known(infos)[canonical]));
}

/// No commit with the same tree is less deep than the canonical one, or as deep and older, or as
/// deep and as old with a smaller id.
pub proof fn canonicals_are_shallow_and_old(infos: Seq<CommitInfo>, commit: Oid, other: Oid)
    requires
        ids(infos).contains(commit),
        ids(infos).contains(other),
        tree_of(infos, other) == tree_of(infos, commit),
    ensures
        ({
            let chosen = known(infos)[canonicals(infos)[commit]];
            let passed = known(infos)[other];
            &&& chosen.depth <= passed.depth
            &&& chosen.depth == passed.depth ==> chosen.cdate <= passed.cdate
            &&& chosen.depth == passed.depth && chosen.cdate == passed.cdate
                ==> canonicals(infos)[commit] == other || canonicals(infos)[commit].less(other)
        }),
{
    every_commit_has_a_canonical(infos, commit);
    lemma_known(infos);
    let canonical = canonicals(infos)[commit];
    assert(known(infos).contains_key(canonical));
    assert(known(infos).contains_key(other));
    assert(!known(infos)[other].ranks_before(known(infos)[canonical]));
    Oid::less_is_strict_total_order(canonical, other, other);
}

proof fn lemma_shared(all: Seq<Seq<Oid>>, commit: Oid)
    ensures
        shared_of(all).contains(commit) <==> exists|g: int|
            0 <= g < all.len() && (#[trigger] all[g]).len() > 1 && all[g].contains(commit),
    decreases all.len(),
{
    if all.len() > 0 {
        let front = all.drop_last();
        lemma_shared(front, commit);
        let before = shared_of(front);
        if all.last().len() > 1 {
            if shared_of(all).contains(commit) {
                let i = choose|i: int| 0 <= i < shared_of(all).len() && shared_of(all)[i] == commit;
                if i < before.len() {
                    assert(before[i] == commit);
                } else {
                    assert(all.last()[i - before.len()] == commit);
                    assert(all[all.len() - 1].contains(commit));
                }
            }
            if all.last().contains(commit) {
                let i = choose|i: int| 0 <= i < all.last().len() && all.last()[i] == commit;
                assert(shared_of(all)[before.len() + i] == commit);
            }
            if before.contains(commit) {
                let i = choose|i: int| 0 <= i < before.len() && before[i] == commit;
                assert(shared_of(all)[i] == commit);
            }
        }
        if exists|g: int|
            0 <= g < front.len() && (#[trigger] front[g]).len() > 1 && front[g].contains(commit) {
            let g = choose|g: int|
                0 <= g < front.len() && (#[trigger] front[g]).len() > 1 && front[g].contains(
                    commit,
                );
            assert(all[g] == front[g]);
        }
        if exists|g: int|
            0 <= g < all.len() && (#[trigger] all[g]).len() > 1 && all[g].contains(commit) {
            let g = choose|g: int|
                0 <= g < all.len() && (#[trigger] all[g]).len() > 1 && all[g].contains(commit);
            if g < front.len() {
                assert(front[g] == all[g]);
            }
        }
    }
}

proof fn lemma_members(infos: Seq<CommitInfo>, tree: Oid, commit: Oid)
    ensures
        members(infos, tree).contains(commit) <==> ids(infos).contains(commit) && tree_of(
            infos,
            commit,
        ) == tree,
{
    let pred = |c: Oid| tree_of(infos, c) == tree;
    if members(infos, tree).contains(commit) {
        ids(infos).lemma_filter_contains_rev(pred, commit);
        let i = choose|i: int|
            0 <= i < ids(infos).filter(pred).len() && ids(infos).filter(pred)[i] == commit;
        ids(infos).lemma_filter_pred(pred, i);
    }
    if ids(infos).contains(commit) && tree_of(infos, commit) == tree {
        let i = choose|i: int| 0 <= i < ids(infos).len() && ids(infos)[i] == commit;
        ids(infos).lemma_filter_contains(pred, i);
    }
}

proof fn lemma_filter_distinct(commits: Seq<Oid>, pred: spec_fn(Oid) -> bool)
    requires
        commits.no_duplicates(),
    ensures
        commits.filter(pred).no_duplicates(),
    decreases commits.len(),
{
    reveal(Seq::filter);
    if commits.len() > 0 {
        let front = commits.drop_last();
        lemma_filter_distinct(front, pred);
        assert forall|i: int| 0 <= i < front.filter(pred).len() implies front.filter(pred)[i]
            != commits.last() by {
            assert(front.filter(pred).contains(front.filter(pred)[i]));
            front.lemma_filter_contains_rev(pred, front.filter(pred)[i]);
        }
    }
}

/// The group of a commit.
proof fn lemma_group(infos: Seq<CommitInfo>, commit: Oid) -> (g: int)
    requires
        ids(infos).contains(commit),
    ensures
        0 <= g < groups(infos).len(),
        groups(infos)[g] == members(infos, tree_of(infos, commit)),
{
    let tree_seq = ids(infos).map_values(|c: Oid| tree_of(infos, c));
    let i = choose|i: int| 0 <= i < ids(infos).len() && ids(infos)[i] == commit;
    assert(tree_seq[i] == tree_of(infos, commit));
    lemma_distinct(tree_seq);
    assert(trees(infos).contains(tree_of(infos, commit)));
    choose|g: int| 0 <= g < trees(infos).len() && trees(infos)[g] == tree_of(infos, commit)
}

/// The members of groups are among the commits.
pub(crate) proof fn lemma_shared_known(infos: Seq<CommitInfo>, commit: Oid)
    requires
        shared_of(groups(infos)).contains(commit),
    ensures
        ids(infos).contains(commit),
{
    let all = groups(infos);
    lemma_shared(all, commit);
    let g = choose|g: int|
        0 <= g < all.len() && (#[trigger] all[g]).len() > 1 && all[g].contains(commit);
    lemma_members(infos, trees(infos)[g], commit);
}

/// The groups part the commits by tree: a commit is in one group, with the commits of its tree and
/// no others.
pub proof fn groups_part_the_commits(infos: Seq<CommitInfo>, commit: Oid, other: Oid)
    requires
        ids(infos).contains(commit),
        ids(infos).contains(other),
    ensures
        exists|g: int|
            0 <= g < groups(infos).len() && (#[trigger] groups(infos)[g]).contains(commit),
        forall|g: int, h: int|
            0 <= g < groups(infos).len() && 0 <= h < groups(infos).len() && (
            #[trigger] groups(infos)[g]).contains(commit) && (#[trigger] groups(infos)[h]).contains(
                other,
            ) ==> (g == h <==> tree_of(infos, commit) == tree_of(infos, other)),
{
    let at = lemma_group(infos, commit);
    lemma_members(infos, tree_of(infos, commit), commit);
    assert(groups(infos)[at].contains(commit));
    lemma_distinct(ids(infos).map_values(|c: Oid| tree_of(infos, c)));
    assert forall|g: int, h: int|
        0 <= g < groups(infos).len() && 0 <= h < groups(infos).len() && (
        #[trigger] groups(infos)[g]).contains(commit) && (#[trigger] groups(infos)[h]).contains(
            other,
        ) implies (g == h <==> tree_of(infos, commit) == tree_of(infos, other)) by {
        lemma_members(infos, trees(infos)[g], commit);
        lemma_members(infos, trees(infos)[h], other);
    }
}

/// Of distinct commits, those that share their tree with another are the members of the groups of
/// more than one.
pub proof fn shared_commits_share_a_tree(infos: Seq<CommitInfo>, commit: Oid)
    requires
        ids(infos).no_duplicates(),
    ensures
        shared_of(groups(infos)).contains(commit) <==> ids(infos).contains(commit)
            && exists|other: Oid| #[trigger]
            ids(infos).contains(other) && other != commit && tree_of(infos, other) == tree_of(
                infos,
                commit,
            ),
{
    let all = groups(infos);
    lemma_shared(all, commit);
    if shared_of(all).contains(commit) {
        let g = choose|g: int|
            0 <= g < all.len() && (#[trigger] all[g]).len() > 1 && all[g].contains(commit);
        let tree = trees(infos)[g];
        lemma_members(infos, tree, commit);
        lemma_filter_distinct(ids(infos), |c: Oid| tree_of(infos, c) == tree);
        let other = if all[g][0] == commit {
            all[g][1]
        } else {
            all[g][0]
        };
        assert(all[g].contains(other));
        lemma_members(infos, tree, other);
    }
    if ids(infos).contains(commit) && exists|other: Oid| #[trigger]
        ids(infos).contains(other) && other != commit && tree_of(infos, other) == tree_of(
            infos,
            commit,
        ) {
        let other = choose|other: Oid| #[trigger]
            ids(infos).contains(other) && other != commit && tree_of(infos, other) == tree_of(
                infos,
                commit,
            );
        let g = lemma_group(infos, commit);
        lemma_members(infos, tree_of(infos, commit), commit);
        lemma_members(infos, tree_of(infos, commit), other);
        assert(all[g].contains(commit) && all[g].contains(other));
        assert(all[g].len() > 1);
    }
}

/// Two commits with one tree are shared.
pub(crate) proof fn lemma_two_are_shared(infos: Seq<CommitInfo>, commit: Oid, other: Oid)
    requires
        ids(infos).contains(commit),
        ids(infos).contains(other),
        commit != other,
        tree_of(infos, commit) == tree_of(infos, other),
    ensures
        shared_of(groups(infos)).contains(commit),
{
    let all = groups(infos);
    lemma_shared(all, commit);
    let g = lemma_group(infos, commit);
    lemma_members(infos, tree_of(infos, commit), commit);
    lemma_members(infos, tree_of(infos, commit), other);
    assert(all[g].contains(commit) && all[g].contains(other));
    assert(all[g].len() > 1);
}

/// A duplicate that is not the root has a branch, or it is among the commits that get one.
pub proof fn duplicates_get_branches(infos: Seq<CommitInfo>, refs: Seq<Ref>, root: Oid, commit: Oid)
    requires
        ids(infos).no_duplicates(),
        duplicates(infos).contains_key(commit),
        commit != root,
    ensures
        has_head(refs, commit) || unbranched(shared_of(groups(infos)), refs, root).contains(commit),
{
    duplicates_lead_to_canonicals(infos, commit);
    shared_commits_share_a_tree(infos, commit);
    let shared = shared_of(groups(infos));
    if !has_head(refs, commit) {
        let i = choose|i: int| 0 <= i < shared.len() && shared[i] == commit;
        shared.lemma_filter_contains(is_unbranched(refs, root), i);
        lemma_distinct(shared.filter(is_unbranched(refs, root)));
    }
}

/// Where no two commits have one tree, none is a duplicate, none gets a branch and none is moved
/// from.
pub proof fn distinct_trees_are_left_alone(
    infos: Seq<CommitInfo>,
    refs: Seq<Ref>,
    root: Oid,
    commits: Seq<Oid>,
)
    requires
        ids(infos).no_duplicates(),
        forall|a: Oid, b: Oid| #[trigger]
            ids(infos).contains(a) && #[trigger] ids(infos).contains(b) && a != b ==> tree_of(
                infos,
                a,
            ) != tree_of(infos, b),
    ensures
        duplicates(infos) == Map::<Oid, Oid>::empty(),
        unbranched(shared_of(groups(infos)), refs, root).len() == 0,
        candidates(commits, canonicals(infos), root).len() == 0,
{
    assert forall|c: Oid| ids(infos).contains(c) implies canonicals(infos)[c] == c by {
        every_commit_has_a_canonical(infos, c);
        assert(ids(infos).contains(canonicals(infos)[c]));
    }
    assert(duplicates(infos) =~= Map::<Oid, Oid>::empty());
    let shared = shared_of(groups(infos));
    if shared.len() > 0 {
        assert(shared.contains(shared[0]));
        shared_commits_share_a_tree(infos, shared[0]);
    }
    let wanted = is_unbranched(refs, root);
    shared.lemma_filter_len(wanted);
    lemma_distinct(shared.filter(wanted));
    let moved = is_moved(canonicals(infos));
    let rest = others(commits, root);
    assert forall|i: int| 0 <= i < rest.len() implies !moved(#[trigger] rest[i]) by {}
    rest.lemma_all_neg_filter_empty(moved);
}

} // verus!
