//! What a run is for.
use vstd::prelude::*;
use crate::laws::canon::lemma_stands_for;
use crate::laws::converging::{commits_below_tips_have_trees_of_their_own, success_settles};
use crate::laws::naming::names_are_told_by_how_they_begin;
use crate::laws::world::{course, lists, perform, Refs, World};
use crate::model::{start, Options, Outcome, Reply, Request, Run};
use crate::oid::{hex, Oid};
use crate::text::Text;
use crate::laws::preserving::branches_keep_their_trees;
use crate::laws::repeating::clean_up_is_thorough;
use crate::refs::{is_temporary, Failure, Record};

verus! {

/// After a run that has succeeded, and was not dry, no branch stands above a commit for which
/// another stands, unless it is one of those that the run makes, under `gto/` or `gto-keep/`. Each
/// such commit has a branch under `gto-keep/` that is named by its digits.
pub proof fn no_branch_is_left_above_a_duplicate(
    world: World,
    first: Refs,
    options: Options,
    root: Oid,
    replies: Seq<Reply>,
    commit: Oid,
    canonical: Oid,
)
    requires
        world.wf(),
        !options.dry_run,
        world.is_honest(first, start(options, root), replies),
        ({
            let (refs, run) = course(first, start(options, root), replies);
            &&& run.request() == Request::Finished(Outcome::Success)
            &&& world.is_in_play(refs, commit)
            &&& world.stands_for(refs, canonical, commit)
            &&& canonical != commit
        }),
    ensures
        ({
            let refs = course(first, start(options, root), replies).0;
            &&& refs.contains_key("refs/heads/gto-keep/"@ + hex(commit.bytes@))
            &&& forall|name: Text| #[trigger]
                refs.contains_key(name) && "refs/heads/"@.is_prefix_of(name)
                    && !"refs/heads/gto-keep/"@.is_prefix_of(name)
                    && !"refs/heads/gto/"@.is_prefix_of(name) ==> refs[name] == commit || !(
                world.reach)(refs[name]).contains(commit)
        }),
{
    let refs = course(first, start(options, root), replies).0;
    success_settles(world, first, options, root, replies);
    lemma_stands_for(world, refs, canonical, commit);
    assert(world.is_bare(refs, commit));
    assert forall|name: Text| #[trigger]
        refs.contains_key(name) && "refs/heads/"@.is_prefix_of(name)
            && !"refs/heads/gto-keep/"@.is_prefix_of(name) && !"refs/heads/gto/"@.is_prefix_of(
            name,
        ) implies refs[name] == commit || !(world.reach)(refs[name]).contains(commit) by {
        names_are_told_by_how_they_begin(name, commit);
        assert(!world.descends(refs[name], commit));
    }
    names_are_told_by_how_they_begin(Seq::empty(), commit);
}

/// After a run that has succeeded, and was not dry, no two commits above the root have one tree, if
/// branches stand above them; nor has one of them the tree of the root. Branches under `gto/`,
/// `gto-keep/` and `gto-tag-tmp/` do not count.
pub proof fn no_two_commits_below_branches_have_one_tree(
    world: World,
    first: Refs,
    options: Options,
    root: Oid,
    replies: Seq<Reply>,
    a: Text,
    b: Text,
    c: Oid,
    d: Oid,
)
    requires
        world.wf(),
        !options.dry_run,
        world.is_honest(first, start(options, root), replies),
        course(first, start(options, root), replies).1.request() == Request::Finished(
            Outcome::Success,
        ),
        ({
            let refs = course(first, start(options, root), replies).0;
            &&& stands_above(world, refs, a, c)
            &&& stands_above(world, refs, b, d)
        }),
        c != d,
    ensures
        (world.tree)(c) != (world.tree)(d),
        (world.tree)(c) != (world.tree)(world.root),
{
    names_are_told_by_how_they_begin(a, c);
    names_are_told_by_how_they_begin(b, d);
    commits_below_tips_have_trees_of_their_own(world, first, options, root, replies, a, b, c, d);
}

/// The branch, under none of `gto/`, `gto-keep/` and `gto-tag-tmp/`, is above the commit, and that is
/// not one that the root reaches.
pub open spec fn stands_above(world: World, refs: Refs, name: Text, commit: Oid) -> bool {
    &&& refs.contains_key(name)
    &&& "refs/heads/"@.is_prefix_of(name)
    &&& !"refs/heads/gto/"@.is_prefix_of(name)
    &&& !"refs/heads/gto-keep/"@.is_prefix_of(name)
    &&& !"refs/heads/gto-tag-tmp/"@.is_prefix_of(name)
    &&& refs[name] != commit && (world.reach)(refs[name]).contains(commit)
    &&& !(world.reach)(world.root).contains(commit)
}

/// At every moment each branch that was there when the run began is there, unless it is under
/// `gto/`, and at a commit with the tree that it had.
pub proof fn branches_have_their_trees(
    world: World,
    first: Refs,
    options: Options,
    root: Oid,
    replies: Seq<Reply>,
    name: Text,
)
    requires
        world.wf(),
        world.is_honest(first, start(options, root), replies),
        first.contains_key(name),
        "refs/heads/"@.is_prefix_of(name),
        !"refs/heads/gto/"@.is_prefix_of(name),
    ensures
        ({
            let refs = course(first, start(options, root), replies).0;
            refs.contains_key(name) && (world.tree)(refs[name]) == (world.tree)(first[name])
        }),
{
    names_are_told_by_how_they_begin(name, root);
    branches_keep_their_trees(world, first, options, root, replies, name);
}

/// A clean-up that gets a listing deletes all branches under `gto/`, and leaves all other references
/// as they are.
pub proof fn clean_up_deletes_temporary_branches(
    refs: Refs,
    run: Run,
    records: Seq<Result<Record, Failure>>,
    name: Text,
)
    requires
        run.stage is Cleanup,
        lists(refs, records),
    ensures
        ({
            let next = perform(refs, run.advance(Reply::Refs(Ok(records))).1);
            &&& "refs/heads/gto/"@.is_prefix_of(name) ==> !next.contains_key(name)
            &&& !"refs/heads/gto/"@.is_prefix_of(name) ==> {
                &&& next.contains_key(name) <==> refs.contains_key(name)
                &&& refs.contains_key(name) ==> next[name] == refs[name]
            }
        }),
{
    clean_up_is_thorough(refs, run, records);
    let next = perform(refs, run.advance(Reply::Refs(Ok(records))).1);
    if next.contains_key(name) {
        assert(!is_temporary(name));
    }
}

} // verus!
