//! What a run comes to that goes on until nothing changes.
use vstd::prelude::*;
use crate::canonical::{
    canonicals, every_commit_has_a_canonical, groups, ids, known, lemma_distinct, lemma_known,
    shared_of, CommitInfo,
};
use crate::laws::choosing::lemma_shared_known;
use crate::laws::naming::own_branches_are_recognized;
use crate::laws::preserving::{grounded, infos_ok, lemma_depth_fits, lemma_grounded, lemma_infos};
use crate::laws::soundness::{is_closing, is_moving, lemma_temporary_branches, runs_are_sound};
use crate::laws::world::{
    apply, course, holds, is_walked, lemma_course, lemma_heads_are_no_tags, lemma_listed,
    lemma_own_refs, lemma_perform_lines, lemma_perform_one, lemma_perform_push, lemma_tag_name,
    lemma_temporary_names, perform, Refs, World,
};
use crate::messages::{
    branching, branching_plan, cleaning, finished, fixpoint, moving_tags, nothing_to_do, Pattern,
};
use crate::model::{
    delete_branches, listed, print_left, start, Effect, Goal, Ledger, Options, Outcome, Pass,
    Reply, Request, Run, Scan, Stage, Survey, Sweep,
};
use crate::oid::Oid;
use crate::refs::{
    is_head, is_movable, is_tag, is_tag_stand_in, is_temporary, is_unbranched, keep_branch,
    keep_ref, local_refs, movable, tags_of, temporary_branch, temporary_branches, unbranched,
    walk_names, Failure, Ref,
};
use crate::text::{trimmed, Text};
use crate::walk::{candidates, is_moved, other_than, others, with_root, Candidate};

verus! {

/// The commits are those that a walk brings up, and the root.
pub open spec fn covers(world: World, refs: Refs, commits: Seq<Oid>) -> bool {
    &&& forall|c: Oid| #[trigger] commits.contains(c) ==> world.is_in_scope(refs, c)
    &&& forall|c: Oid| #[trigger]
        world.is_in_walk(refs, c) ==> commits.contains(c) && commits.contains(world.root)
}

/// The canonical commits are those of the repository as it stands.
pub open spec fn chosen_ok(world: World, refs: Refs, chosen: Map<Oid, Oid>) -> bool {
    &&& forall|c: Oid| #[trigger] world.is_in_walk(refs, c) ==> chosen.contains_key(c)
    &&& forall|c: Oid| #[trigger]
        chosen.contains_key(c) ==> world.is_in_scope(refs, c) && (chosen[c] == c
            <==> world.is_best(refs, c))
}

/// A pass with this pattern is about the duplicate.
pub open spec fn is_due(world: World, chosen: Map<Oid, Oid>, pattern: Pattern, c: Oid) -> bool {
    world.descends(c, chosen[c]) == (pattern == Pattern::Shallow)
}

/// The duplicate is kept and no branch that a run may move is above it.
pub open spec fn is_done(world: World, refs: Refs, c: Oid) -> bool {
    refs.contains_key(keep_ref(c)) && world.is_bare(refs, c)
}

/// The duplicate is among the candidates.
pub open spec fn is_queued(pairs: Seq<Candidate>, c: Oid) -> bool {
    exists|i: int| 0 <= i < pairs.len() && (#[trigger] pairs[i]).commit == c
}

/// A pass with this pattern, with these candidates left, or one after it, will be about the
/// duplicate.
pub open spec fn is_left_in(
    world: World,
    chosen: Map<Oid, Oid>,
    pattern: Pattern,
    pairs: Seq<Candidate>,
    c: Oid,
) -> bool {
    ||| pattern == Pattern::Rebase && is_due(world, chosen, Pattern::Shallow, c)
    ||| is_due(world, chosen, pattern, c) && is_queued(pairs, c)
}

/// The candidates of a pass that are not done with.
pub open spec fn queue(scan: Scan) -> Seq<Candidate> {
    seq![scan.current] + scan.rest
}

/// The round will be about the duplicate yet.
pub open spec fn is_left(world: World, chosen: Map<Oid, Oid>, stage: Stage, c: Oid) -> bool {
    match stage {
        Stage::Heads { .. } => true,
        Stage::Branch { .. } => true,
        Stage::WalkNames(Goal::Pass(pass)) => pass.pattern == Pattern::Rebase || is_due(
            world,
            chosen,
            Pattern::Shallow,
            c,
        ),
        Stage::Walk { goal: Goal::Pass(pass), .. } => pass.pattern == Pattern::Rebase || is_due(
            world,
            chosen,
            Pattern::Shallow,
            c,
        ),
        Stage::Candidate(scan) => is_left_in(world, chosen, scan.pass.pattern, queue(scan), c),
        Stage::KeepRef(scan) => is_left_in(world, chosen, scan.pass.pattern, queue(scan), c),
        Stage::KeepCommit(scan) => is_left_in(world, chosen, scan.pass.pattern, queue(scan), c),
        Stage::Branches(scan) => is_left_in(world, chosen, scan.pass.pattern, queue(scan), c),
        Stage::Descends(sweep) => is_left_in(
            world,
            chosen,
            sweep.scan.pass.pattern,
            queue(sweep.scan),
            c,
        ),
        _ => false,
    }
}

/// The candidates are duplicates with their canonical commits.
pub open spec fn pairs_ok(
    world: World,
    refs: Refs,
    chosen: Map<Oid, Oid>,
    pairs: Seq<Candidate>,
) -> bool {
    forall|i: int|
        0 <= i < pairs.len() ==> {
            let pair = #[trigger] pairs[i];
            &&& world.is_duplicate(refs, pair.commit)
            &&& chosen.contains_key(pair.commit)
            &&& pair.canonical == chosen[pair.commit]
        }
}

/// The branches that may have to move are among those that are left.
pub open spec fn heads_left(world: World, refs: Refs, c: Oid, heads: Seq<Ref>) -> bool {
    forall|name: Text| #[trigger]
        refs.contains_key(name) && is_movable(name) && world.descends(refs[name], c)
            ==> heads.contains(Ref { name, target: refs[name] })
}

/// What a round goes by at its stage is so.
pub open spec fn stage_ok(world: World, refs: Refs, chosen: Map<Oid, Oid>, stage: Stage) -> bool {
    match stage {
        Stage::Heads { shared } => forall|i: int|
            0 <= i < shared.len() ==> world.is_in_scope(refs, #[trigger] shared[i]),
        Stage::Branch { current, rest } => world.is_in_walk(refs, current) && forall|i: int|
            0 <= i < rest.len() ==> world.is_in_walk(refs, #[trigger] rest[i]),
        Stage::Candidate(scan) => pairs_ok(world, refs, chosen, queue(scan)),
        Stage::KeepRef(scan) => scan_due(world, refs, chosen, scan),
        Stage::KeepCommit(scan) => scan_due(world, refs, chosen, scan),
        Stage::Branches(scan) => scan_due(world, refs, chosen, scan) && refs.contains_key(
            keep_ref(scan.current.commit),
        ),
        Stage::Descends(sweep) => {
            &&& scan_due(world, refs, chosen, sweep.scan)
            &&& refs.contains_key(keep_ref(sweep.scan.current.commit))
            &&& heads_left(
                world,
                refs,
                sweep.scan.current.commit,
                seq![sweep.head] + sweep.rest,
            )
        },
        _ => true,
    }
}

/// The pass is at a duplicate that it is about.
pub open spec fn scan_due(world: World, refs: Refs, chosen: Map<Oid, Oid>, scan: Scan) -> bool {
    &&& pairs_ok(world, refs, chosen, queue(scan))
    &&& is_due(world, chosen, scan.pass.pattern, scan.current.commit)
}

/// The canonical commits of the round are known.
pub open spec fn is_in_round(stage: Stage) -> bool {
    match stage {
        Stage::Heads { .. } => true,
        Stage::Branch { .. } => true,
        Stage::WalkNames(goal) => goal is Pass,
        Stage::Walk { goal, .. } => goal is Pass,
        Stage::Candidate(_) => true,
        Stage::KeepRef(_) => true,
        Stage::KeepCommit(_) => true,
        Stage::Branches(_) => true,
        Stage::Descends(_) => true,
        _ => false,
    }
}

/// The round knows the canonical commits, and each duplicate is done with, or left.
pub open spec fn round_ok(world: World, refs: Refs, ledger: Ledger, stage: Stage) -> bool {
    &&& chosen_ok(world, refs, ledger.canonicals)
    &&& forall|c: Oid| #[trigger]
        world.is_duplicate(refs, c) ==> is_done(world, refs, c) || is_left(
            world,
            ledger.canonicals,
            stage,
            c,
        )
    &&& stage_ok(world, refs, ledger.canonicals, stage)
}

/// What holds of a run that is not dry: a walk starts from the branches; the commits that a round
/// surveys are those of the walk; a round that has moved no branch knows the canonical commits and
/// which duplicates are left; and once the rounds are over none is left.
pub open spec fn tracks(world: World, refs: Refs, run: Run) -> bool {
    &&& run.stage matches Stage::Walk { names, .. } ==> forall|name: Text| #[trigger]
        names.contains(name) <==> refs.contains_key(name) && is_walked(name) && (is_head(name)
            || is_tag(name))
    &&& run.stage matches Stage::Info { survey: Survey::Round, done, current, rest } ==> covers(
        world,
        refs,
        ids(done) + (seq![current] + rest),
    )
    &&& run.stage matches Stage::Depth { survey: Survey::Round, done, current, rest, .. }
        ==> covers(world, refs, ids(done) + (seq![current] + rest))
    &&& is_in_round(run.stage) && !run.ledger.changed ==> round_ok(
        world,
        refs,
        run.ledger,
        run.stage,
    )
    &&& is_closing(run.stage) ==> world.is_settled(refs)
}

/// The two repositories have the same walks, and the same branches that may move; what is kept in
/// the first is kept in the second.
pub open spec fn is_alike(world: World, refs: Refs, next: Refs) -> bool {
    &&& forall|c: Oid| #[trigger] world.is_in_walk(next, c) <==> world.is_in_walk(refs, c)
    &&& forall|c: Oid| #[trigger] world.is_best(next, c) <==> world.is_best(refs, c)
    &&& forall|c: Oid| #[trigger] world.is_bare(next, c) <==> world.is_bare(refs, c)
    &&& forall|c: Oid|
        refs.contains_key(#[trigger] keep_ref(c)) ==> next.contains_key(keep_ref(c))
}

pub(crate) proof fn lemma_alike(world: World, refs: Refs, next: Refs)
    requires
        forall|c: Oid| #[trigger] world.is_in_walk(next, c) <==> world.is_in_walk(refs, c),
        forall|name: Text|
            is_movable(name) ==> (#[trigger] next.contains_key(name) <==> refs.contains_key(name))
                && (refs.contains_key(name) ==> next[name] == refs[name]),
        forall|c: Oid|
            refs.contains_key(#[trigger] keep_ref(c)) ==> next.contains_key(keep_ref(c)),
    ensures
        is_alike(world, refs, next),
{
    assert forall|c: Oid| #[trigger] world.is_best(next, c) <==> world.is_best(refs, c) by {
        if world.is_best(refs, c) {
            assert forall|d: Oid| #[trigger]
                world.is_in_scope(next, d) && (world.tree)(d) == (world.tree)(c) implies
                !world.fact(d).ranks_before(world.fact(c)) by {
                assert(world.is_in_walk(next, d) <==> world.is_in_walk(refs, d));
                assert(world.is_in_scope(refs, d));
            }
        }
        if world.is_best(next, c) {
            assert forall|d: Oid| #[trigger]
                world.is_in_scope(refs, d) && (world.tree)(d) == (world.tree)(c) implies
                !world.fact(d).ranks_before(world.fact(c)) by {
                assert(world.is_in_walk(next, d) <==> world.is_in_walk(refs, d));
                assert(world.is_in_scope(next, d));
            }
        }
    }
    assert forall|c: Oid| #[trigger] world.is_bare(next, c) <==> world.is_bare(refs, c) by {
        if world.is_bare(refs, c) {
            assert forall|name: Text| #[trigger]
                next.contains_key(name) && is_movable(name) implies !world.descends(
                next[name],
                c,
            ) by {
                assert(refs.contains_key(name));
            }
        }
        if world.is_bare(next, c) {
            assert forall|name: Text| #[trigger]
                refs.contains_key(name) && is_movable(name) implies !world.descends(
                refs[name],
                c,
            ) by {
                assert(next.contains_key(name));
            }
        }
    }
}

/// A branch of the run's own at a commit of the walk changes nothing that counts.
pub(crate) proof fn lemma_own_branch(world: World, refs: Refs, name: Text, commit: Oid)
    requires
        world.wf(),
        world.is_in_walk(refs, commit),
        !is_movable("refs/heads/"@ + name),
    ensures
        is_alike(world, refs, apply(refs, Effect::CreateBranch { name, target: commit })),
{
    let next = apply(refs, Effect::CreateBranch { name, target: commit });
    assert forall|c: Oid| #[trigger]
        world.is_in_walk(next, c) <==> world.is_in_walk(refs, c) by {
        if world.is_in_walk(refs, c) {
            let n = choose|n: Text| #[trigger]
                refs.contains_key(n) && is_walked(n) && (is_head(n) || is_tag(n)) && world.reaches(
                    refs[n],
                    c,
                );
            assert(next.contains_key(n));
            assert(next[n] == refs[n]);
        }
        if world.is_in_walk(next, c) {
            let n = choose|n: Text| #[trigger]
                next.contains_key(n) && is_walked(n) && (is_head(n) || is_tag(n)) && world.reaches(
                    next[n],
                    c,
                );
            if !refs.contains_key(n) {
                assert(next[n] == commit);
                let m = choose|m: Text| #[trigger]
                    refs.contains_key(m) && is_walked(m) && (is_head(m) || is_tag(m))
                        && world.reaches(refs[m], commit);
                assert(world.reaches(refs[m], c));
                assert(refs.contains_key(m));
            } else {
                assert(refs[n] == next[n]);
            }
        }
    }
    lemma_alike(world, refs, next);
}

/// Tags change nothing that counts.
pub(crate) proof fn lemma_tag_aside(world: World, refs: Refs, name: Text, target: Oid)
    ensures
        is_alike(world, refs, apply(refs, Effect::SetTag { name, target })),
{
    let next = apply(refs, Effect::SetTag { name, target });
    let full = "refs/tags/"@ + name;
    lemma_tag_name(name);
    assert forall|c: Oid| #[trigger]
        world.is_in_walk(next, c) <==> world.is_in_walk(refs, c) by {
        if world.is_in_walk(refs, c) {
            let n = choose|n: Text| #[trigger]
                refs.contains_key(n) && is_walked(n) && (is_head(n) || is_tag(n)) && world.reaches(
                    refs[n],
                    c,
                );
            assert(next.contains_key(n) && next[n] == refs[n]);
        }
        if world.is_in_walk(next, c) {
            let n = choose|n: Text| #[trigger]
                next.contains_key(n) && is_walked(n) && (is_head(n) || is_tag(n)) && world.reaches(
                    next[n],
                    c,
                );
            assert(refs.contains_key(n) && next[n] == refs[n]);
        }
    }
    lemma_alike(world, refs, next);
}

/// What is settled stays so in a repository that is alike.
proof fn lemma_settled_alike(world: World, refs: Refs, next: Refs)
    requires
        is_alike(world, refs, next),
        world.is_settled(refs),
    ensures
        world.is_settled(next),
{
    assert forall|c: Oid| #[trigger] world.is_duplicate(next, c) implies next.contains_key(
        keep_ref(c),
    ) && world.is_bare(next, c) by {
        assert(world.is_in_walk(next, c) <==> world.is_in_walk(refs, c));
        assert(world.is_best(next, c) <==> world.is_best(refs, c));
        assert(world.is_duplicate(refs, c));
        assert(world.is_bare(next, c) <==> world.is_bare(refs, c));
    }
}

/// What is settled stays so when temporary branches go.
pub(crate) proof fn lemma_settled_without(world: World, refs: Refs, next: Refs)
    requires
        world.is_settled(refs),
        forall|name: Text| #[trigger]
            next.contains_key(name) ==> refs.contains_key(name) && refs[name] == next[name],
        forall|name: Text| #[trigger]
            refs.contains_key(name) && !is_temporary(name) ==> next.contains_key(name),
    ensures
        world.is_settled(next),
{
    assert forall|c: Oid| #[trigger] world.is_in_walk(next, c) implies world.is_in_walk(
        refs,
        c,
    ) by {
        let n = choose|n: Text| #[trigger]
            next.contains_key(n) && is_walked(n) && (is_head(n) || is_tag(n)) && world.reaches(
                next[n],
                c,
            );
        assert(refs.contains_key(n) && refs[n] == next[n]);
    }
    assert forall|c: Oid| #[trigger] world.is_duplicate(next, c) implies next.contains_key(
        keep_ref(c),
    ) && world.is_bare(next, c) by {
        assert(world.is_in_walk(next, c));
        assert(!world.is_best(refs, c)) by {
            let d = choose|d: Oid| #[trigger]
                world.is_in_scope(next, d) && (world.tree)(d) == (world.tree)(c) && world.fact(
                    d,
                ).ranks_before(world.fact(c));
            assert(world.is_in_walk(next, d) ==> world.is_in_walk(refs, d));
            assert(world.is_in_scope(refs, d));
        }
        assert(world.is_duplicate(refs, c));
        own_branches_are_recognized(c);
        assert forall|name: Text| #[trigger]
            next.contains_key(name) && is_movable(name) implies !world.descends(
            next[name],
            c,
        ) by {
            assert(refs.contains_key(name));
        }
    }
}

/// Deleting temporary branches deletes nothing else.
pub(crate) proof fn lemma_delete(refs: Refs, names: Seq<Text>)
    requires
        forall|i: int| 0 <= i < names.len() ==> "gto/"@.is_prefix_of(#[trigger] names[i]),
    ensures
        ({
            let next = perform(refs, delete_branches(names));
            &&& forall|name: Text| #[trigger]
                next.contains_key(name) ==> refs.contains_key(name) && refs[name] == next[name]
            &&& forall|name: Text| #[trigger]
                refs.contains_key(name) && !is_temporary(name) ==> next.contains_key(name)
            &&& forall|name: Text|
                #![trigger next.contains_key(name)]
                is_temporary(name) && names.contains(name.skip(11)) ==> !next.contains_key(name)
        }),
    decreases names.len(),
{
    if names.len() > 0 {
        let front = names.drop_last();
        assert forall|i: int| 0 <= i < front.len() implies "gto/"@.is_prefix_of(
            #[trigger] front[i],
        ) by {
            assert(front[i] == names[i]);
        }
        lemma_delete(refs, front);
        assert(delete_branches(names).drop_last() =~= delete_branches(front));
        assert("gto/"@.is_prefix_of(names[names.len() - 1]));
        lemma_temporary_names(names.last());
        let before = perform(refs, delete_branches(front));
        let next = perform(refs, delete_branches(names));
        assert(next == before.remove("refs/heads/"@ + names.last()));
        assert forall|name: Text|
            #![trigger next.contains_key(name)]
            is_temporary(name) && names.contains(name.skip(11)) implies !next.contains_key(
            name,
        ) by {
            let i = choose|i: int| 0 <= i < names.len() && names[i] == name.skip(11);
            lemma_temporary_names(name);
            if i < front.len() {
                assert(front[i] == name.skip(11));
                assert(!before.contains_key(name));
            }
        }
        assert forall|name: Text| #[trigger]
            refs.contains_key(name) && !is_temporary(name) implies next.contains_key(name) by {
            assert(before.contains_key(name));
        }
    }
}

/// What holds of a run between two stages.
spec fn base_ok(world: World, ledger: Ledger) -> bool {
    &&& world.wf()
    &&& ledger.root == world.root
    &&& !ledger.options.dry_run
}

proof fn lemma_tag(world: World, refs: Refs, ledger: Ledger, tags: Seq<Ref>, effects: Seq<Effect>)
    requires
        world.is_settled(perform(refs, effects)),
    ensures
        tracks(
            world,
            perform(refs, ledger.tag(tags, effects).1),
            ledger.tag(tags, effects).0,
        ),
    decreases tags.len(),
{
    lemma_perform_push(refs, effects, Effect::Print(cleaning()));
    if tags.len() > 0 {
        lemma_tag(world, refs, ledger, tags.drop_first(), effects);
    }
}

proof fn lemma_tags(world: World, refs: Refs, ledger: Ledger, effects: Seq<Effect>)
    requires
        base_ok(world, ledger),
        world.is_settled(perform(refs, effects)),
    ensures
        tracks(world, perform(refs, ledger.tags(effects).1), ledger.tags(effects).0),
{
    let tags = tags_of(ledger.initial);
    if ledger.options.move_tags {
        lemma_perform_push(refs, effects, Effect::Print(moving_tags()));
        lemma_tag(world, refs, ledger, tags, effects.push(Effect::Print(moving_tags())));
    } else {
        let left = print_left(tags, ledger.duplicates);
        lemma_perform_lines(refs, effects, left);
        lemma_perform_push(refs, effects + left, Effect::Print(cleaning()));
    }
}

/// A round has begun, or there may be no more of them: nothing is known.
proof fn lemma_begin_round(world: World, refs: Refs, ledger: Ledger, effects: Seq<Effect>)
    ensures
        tracks(world, refs, ledger.begin_round(effects).0),
{
}

proof fn lemma_scan(
    world: World,
    refs: Refs,
    ledger: Ledger,
    pass: Pass,
    pairs: Seq<Candidate>,
    effects: Seq<Effect>,
)
    requires
        base_ok(world, ledger),
        !ledger.changed ==> {
            let now = perform(refs, effects);
            &&& chosen_ok(world, now, ledger.canonicals)
            &&& pairs_ok(world, now, ledger.canonicals, pairs)
            &&& forall|c: Oid| #[trigger]
                world.is_duplicate(now, c) ==> is_done(world, now, c) || is_left_in(
                    world,
                    ledger.canonicals,
                    pass.pattern,
                    pairs,
                    c,
                )
        },
    ensures
        tracks(
            world,
            perform(refs, ledger.scan(pass, pairs, effects).1),
            ledger.scan(pass, pairs, effects).0,
        ),
{
    if pairs.len() > 0 {
        assert(seq![pairs[0]] + pairs.drop_first() =~= pairs);
    } else if !pass.changed && pass.pattern == Pattern::Shallow {
        if !ledger.changed && !ledger.added {
            let line = Effect::Print(fixpoint(ledger.round));
            let now = perform(refs, effects);
            lemma_perform_push(refs, effects, line);
            assert forall|c: Oid| #[trigger] world.is_duplicate(now, c) implies now.contains_key(
                keep_ref(c),
            ) && world.is_bare(now, c) by {
                assert(!is_queued(pairs, c));
            }
            lemma_tags(world, refs, ledger, effects.push(line));
        } else {
            lemma_begin_round(
                world,
                perform(refs, ledger.begin_round(effects).1),
                ledger,
                effects,
            );
        }
    }
}

proof fn lemma_sweep(
    world: World,
    refs: Refs,
    ledger: Ledger,
    scan: Scan,
    heads: Seq<Ref>,
    effects: Seq<Effect>,
)
    requires
        base_ok(world, ledger),
        !ledger.changed ==> {
            let now = perform(refs, effects);
            &&& chosen_ok(world, now, ledger.canonicals)
            &&& scan_due(world, now, ledger.canonicals, scan)
            &&& now.contains_key(keep_ref(scan.current.commit))
            &&& heads_left(world, now, scan.current.commit, heads)
            &&& forall|c: Oid| #[trigger]
                world.is_duplicate(now, c) ==> is_done(world, now, c) || is_left_in(
                    world,
                    ledger.canonicals,
                    scan.pass.pattern,
                    queue(scan),
                    c,
                )
        },
    ensures
        tracks(
            world,
            perform(refs, ledger.sweep(scan, heads, effects).1),
            ledger.sweep(scan, heads, effects).0,
        ),
{
    let now = perform(refs, effects);
    let chosen = ledger.canonicals;
    if heads.len() > 0 {
        assert(seq![heads[0]] + heads.drop_first() =~= heads);
    } else {
        if !ledger.changed {
            let all = queue(scan);
            assert forall|i: int| 0 <= i < scan.rest.len() implies {
                let pair = #[trigger] scan.rest[i];
                &&& world.is_duplicate(now, pair.commit)
                &&& chosen.contains_key(pair.commit)
                &&& pair.canonical == chosen[pair.commit]
            } by {
                assert(all[i + 1] == scan.rest[i]);
            }
            assert(world.is_bare(now, scan.current.commit)) by {
                assert forall|name: Text| #[trigger]
                    now.contains_key(name) && is_movable(name) implies !world.descends(
                    now[name],
                    scan.current.commit,
                ) by {
                    assert(!heads.contains(Ref { name, target: now[name] }));
                }
            }
            assert forall|c: Oid| #[trigger] world.is_duplicate(now, c) implies is_done(
                world,
                now,
                c,
            ) || is_left_in(world, chosen, scan.pass.pattern, scan.rest, c) by {
                if !is_done(world, now, c) && is_queued(all, c) {
                    let i = choose|i: int| 0 <= i < all.len() && (#[trigger] all[i]).commit == c;
                    assert(i > 0);
                    assert(scan.rest[i - 1].commit == c);
                }
            }
        }
        lemma_scan(world, refs, ledger, scan.pass, scan.rest, effects);
    }
}

/// A round in which a branch has moved knows nothing until the next one.
proof fn lemma_relocated(
    world: World,
    refs: Refs,
    ledger: Ledger,
    sweep: Sweep,
    effects: Seq<Effect>,
)
    requires
        base_ok(world, ledger),
    ensures
        tracks(
            world,
            perform(refs, ledger.relocated(sweep, effects).1),
            ledger.relocated(sweep, effects).0,
        ),
{
    let scan = Scan { pass: Pass { changed: true, ..sweep.scan.pass }, ..sweep.scan };
    lemma_sweep(world, refs, Ledger { changed: true, ..ledger }, scan, sweep.rest, effects);
}

proof fn lemma_branch(
    world: World,
    refs: Refs,
    ledger: Ledger,
    missing: Seq<Oid>,
    effects: Seq<Effect>,
)
    requires
        base_ok(world, ledger),
        !ledger.changed ==> {
            let now = perform(refs, effects);
            &&& chosen_ok(world, now, ledger.canonicals)
            &&& forall|i: int|
                0 <= i < missing.len() ==> world.is_in_walk(now, #[trigger] missing[i])
        },
    ensures
        tracks(
            world,
            perform(refs, ledger.branch(missing, effects).1),
            ledger.branch(missing, effects).0,
        ),
{
    if missing.len() > 0 {
        let now = perform(refs, effects);
        lemma_perform_push(refs, effects, Effect::Print(branching(missing[0])));
        if !ledger.changed {
            assert(world.is_in_walk(now, missing[0]));
            assert forall|i: int| 0 <= i < missing.drop_first().len() implies world.is_in_walk(
                now,
                #[trigger] missing.drop_first()[i],
            ) by {
                assert(missing.drop_first()[i] == missing[i + 1]);
            }
        }
    }
}

/// The canonical commits of surveyed commits are those of the repository.
pub(crate) proof fn lemma_chosen(world: World, refs: Refs, infos: Seq<CommitInfo>)
    requires
        world.wf(),
        infos_ok(world, infos),
        covers(world, refs, ids(infos)),
    ensures
        chosen_ok(world, refs, canonicals(infos)),
{
    lemma_infos(world, infos);
    lemma_known(infos);
    let chosen = canonicals(infos);
    assert forall|c: Oid| #[trigger] chosen.contains_key(c) implies world.is_in_scope(refs, c) && (
    chosen[c] == c <==> world.is_best(refs, c)) by {
        let k = chosen[c];
        every_commit_has_a_canonical(infos, c);
        assert(ids(infos).contains(c));
        assert(known(infos).contains_key(c));
        assert(known(infos).contains_key(k));
        if k == c {
            assert forall|d: Oid| #[trigger]
                world.is_in_scope(refs, d) && (world.tree)(d) == (world.tree)(c) implies
                !world.fact(d).ranks_before(world.fact(c)) by {
                if world.is_in_walk(refs, d) {
                    assert(ids(infos).contains(d));
                } else if world.is_in_walk(refs, c) {
                    assert(ids(infos).contains(world.root));
                } else {
                    assert(d == c);
                }
                assert(ids(infos).contains(d));
                assert(known(infos).contains_key(d));
            }
        }
        if world.is_best(refs, c) && k != c {
            assert(ids(infos).contains(k));
            assert(world.is_in_scope(refs, k));
            assert(!world.fact(k).ranks_before(world.fact(c)));
            assert(!known(infos)[c].ranks_before(known(infos)[k]));
            Oid::less_is_strict_total_order(c, k, k);
        }
    }
}

proof fn lemma_survey(
    world: World,
    refs: Refs,
    ledger: Ledger,
    survey: Survey,
    done: Seq<CommitInfo>,
    commits: Seq<Oid>,
)
    requires
        base_ok(world, ledger),
        infos_ok(world, done),
        survey is Round ==> covers(world, refs, ids(done) + commits),
    ensures
        ({
            let step = ledger.survey(survey, done, commits);
            tracks(world, perform(refs, step.1), step.0)
        }),
{
    if commits.len() > 0 {
        assert(seq![commits[0]] + commits.drop_first() =~= commits);
    } else {
        match survey {
            Survey::Initial => {
                let noted = Ledger { duplicates: crate::canonical::duplicates(done), ..ledger };
                lemma_begin_round(
                    world,
                    perform(refs, noted.begin_round(Seq::empty()).1),
                    noted,
                    Seq::empty(),
                );
            },
            Survey::Round => {
                assert(ids(done) + commits =~= ids(done));
                lemma_chosen(world, refs, done);
                let shared = shared_of(groups(done));
                assert forall|i: int| 0 <= i < shared.len() implies world.is_in_scope(
                    refs,
                    #[trigger] shared[i],
                ) by {
                    assert(shared.contains(shared[i]));
                    lemma_shared_known(done, shared[i]);
                }
            },
        }
    }
}

/// The candidates of a walk.
pub(crate) proof fn lemma_candidates(world: World, refs: Refs, chosen: Map<Oid, Oid>, commits: Seq<Oid>)
    requires
        world.wf(),
        chosen_ok(world, refs, chosen),
        covers(world, refs, commits),
    ensures
        pairs_ok(world, refs, chosen, candidates(commits, chosen, world.root)),
        forall|c: Oid| #[trigger]
            world.is_duplicate(refs, c) ==> is_queued(candidates(commits, chosen, world.root), c),
{
    let other = other_than(world.root);
    let moved = is_moved(chosen);
    let rest = others(commits, world.root);
    let kept = rest.filter(moved);
    let pairs = candidates(commits, chosen, world.root);
    assert forall|i: int| 0 <= i < pairs.len() implies {
        let pair = #[trigger] pairs[i];
        &&& world.is_duplicate(refs, pair.commit)
        &&& chosen.contains_key(pair.commit)
        &&& pair.canonical == chosen[pair.commit]
    } by {
        let c = kept[i];
        assert(pairs[i] == Candidate { commit: c, canonical: chosen[c] });
        rest.lemma_filter_pred(moved, i);
        assert(kept.contains(c));
        rest.lemma_filter_contains_rev(moved, c);
        let k = choose|k: int| 0 <= k < rest.len() && rest[k] == c;
        commits.lemma_filter_pred(other, k);
        commits.lemma_filter_contains_rev(other, c);
    }
    assert forall|c: Oid| #[trigger] world.is_duplicate(refs, c) implies is_queued(pairs, c) by {
        assert(world.is_in_walk(refs, c));
        assert(world.reaches(world.root, world.root));
        assert(chosen.contains_key(c));
        assert(commits.contains(c));
        let i = choose|i: int| 0 <= i < commits.len() && commits[i] == c;
        commits.lemma_filter_contains(other, i);
        let k = choose|k: int| 0 <= k < rest.len() && rest[k] == c;
        rest.lemma_filter_contains(moved, k);
        let j = choose|j: int| 0 <= j < kept.len() && kept[j] == c;
        assert(pairs[j].commit == c);
    }
}

proof fn lemma_walked(
    world: World,
    refs: Refs,
    ledger: Ledger,
    goal: Goal,
    commits: Seq<Oid>,
)
    requires
        base_ok(world, ledger),
        covers(world, refs, commits),
        goal matches Goal::Pass(pass) ==> (!ledger.changed ==> {
            &&& chosen_ok(world, refs, ledger.canonicals)
            &&& forall|c: Oid| #[trigger]
                world.is_duplicate(refs, c) ==> is_done(world, refs, c) || pass.pattern
                    == Pattern::Rebase || is_due(world, ledger.canonicals, Pattern::Shallow, c)
        }),
    ensures
        ({
            let step = ledger.walked(goal, commits);
            tracks(world, perform(refs, step.1), step.0)
        }),
{
    match goal {
        Goal::Initial => {
            lemma_survey(world, refs, ledger, Survey::Initial, Seq::empty(), commits);
        },
        Goal::Round => {
            let other = other_than(ledger.root);
            if others(commits, ledger.root).len() == 0 {
                lemma_perform_one(refs, Effect::Print(nothing_to_do()));
                assert forall|c: Oid| world.is_in_walk(refs, c) implies false by {
                    assert(world.reaches(world.root, world.root));
                    let i = choose|i: int| 0 <= i < commits.len() && commits[i] == c;
                    commits.lemma_filter_contains(other, i);
                }
                lemma_tags(world, refs, ledger, seq![Effect::Print(nothing_to_do())]);
            }
        },
        Goal::Canonicals => {
            assert(ids(Seq::<CommitInfo>::empty()) + commits =~= commits);
            lemma_survey(world, refs, ledger, Survey::Round, Seq::empty(), commits);
        },
        Goal::Pass(pass) => {
            let pairs = candidates(commits, ledger.canonicals, ledger.root);
            if !ledger.changed {
                lemma_candidates(world, refs, ledger.canonicals, commits);
            }
            lemma_scan(world, refs, ledger, pass, pairs, Seq::empty());
        },
    }
}

/// The names from which a walk over listed references starts.
pub(crate) proof fn lemma_walk_names(refs: Refs, found: Seq<Ref>)
    requires
        forall|r: Ref| #[trigger]
            found.contains(r) <==> holds(refs, r) && (is_head(r.name) || is_tag(r.name)),
    ensures
        forall|name: Text| #[trigger]
            walk_names(found).contains(name) <==> refs.contains_key(name) && is_walked(name) && (
            is_head(name) || is_tag(name)),
{
    let wanted = |r: Ref| !is_tag_stand_in(r.name) && !is_tag(r.name);
    let kept = found.filter(wanted);
    let names = walk_names(found);
    assert(names == kept.map_values(|r: Ref| r.name));
    assert forall|name: Text| #[trigger]
        names.contains(name) <==> refs.contains_key(name) && is_walked(name) && (is_head(name)
            || is_tag(name)) by {
        if names.contains(name) {
            let i = choose|i: int| 0 <= i < names.len() && names[i] == name;
            found.lemma_filter_pred(wanted, i);
            assert(kept.contains(kept[i]));
            found.lemma_filter_contains_rev(wanted, kept[i]);
            assert(found.contains(kept[i]));
        }
        if refs.contains_key(name) && is_walked(name) && (is_head(name) || is_tag(name)) {
            let r = Ref { name, target: refs[name] };
            assert(holds(refs, r));
            assert(found.contains(r));
            let i = choose|i: int| 0 <= i < found.len() && found[i] == r;
            found.lemma_filter_contains(wanted, i);
            let k = choose|k: int| 0 <= k < kept.len() && kept[k] == r;
            assert(names[k] == name);
        }
    }
}

/// The commits of a walk from the branches, with the root.
pub(crate) proof fn lemma_covers(world: World, refs: Refs, names: Seq<Text>, commits: Seq<Oid>)
    requires
        forall|name: Text| #[trigger]
            names.contains(name) <==> refs.contains_key(name) && is_walked(name) && (is_head(name)
                || is_tag(name)),
        forall|c: Oid| #[trigger]
            commits.contains(c) <==> !world.reaches(world.root, c) && world.is_reached(
                refs,
                names,
                c,
            ),
    ensures
        covers(world, refs, with_root(commits, world.root)),
{
    let all = with_root(commits, world.root);
    assert forall|c: Oid| commits.contains(c) <==> world.is_in_walk(refs, c) by {
        if commits.contains(c) {
            let i = choose|i: int|
                0 <= i < names.len() && refs.contains_key(#[trigger] names[i]) && world.reaches(
                    refs[names[i]],
                    c,
                );
            assert(names.contains(names[i]));
        }
        if world.is_in_walk(refs, c) {
            let n = choose|n: Text| #[trigger]
                refs.contains_key(n) && is_walked(n) && (is_head(n) || is_tag(n)) && world.reaches(
                    refs[n],
                    c,
                );
            assert(names.contains(n));
            let i = choose|i: int| 0 <= i < names.len() && names[i] == n;
            assert(refs.contains_key(names[i]));
        }
    }
    if !commits.contains(world.root) {
        assert(all[0] == world.root);
        assert forall|c: Oid| all.contains(c) <==> c == world.root || commits.contains(c) by {
            if all.contains(c) {
                let i = choose|i: int| 0 <= i < all.len() && all[i] == c;
                if i > 0 {
                    assert(commits[i - 1] == c);
                }
            }
            if commits.contains(c) {
                let i = choose|i: int| 0 <= i < commits.len() && commits[i] == c;
                assert(all[i + 1] == c);
            }
        }
    }
}

proof fn lemma_learned(
    world: World,
    refs: Refs,
    ledger: Ledger,
    survey: Survey,
    done: Seq<CommitInfo>,
    info: CommitInfo,
    rest: Seq<Oid>,
)
    requires
        base_ok(world, ledger),
        infos_ok(world, done.push(info)),
        survey is Round ==> covers(world, refs, ids(done) + (seq![info.oid] + rest)),
    ensures
        ({
            let step = ledger.survey(survey, done.push(info), rest);
            tracks(world, perform(refs, step.1), step.0)
        }),
{
    assert(ids(done.push(info)) + rest =~= ids(done) + (seq![info.oid] + rest));
    lemma_survey(world, refs, ledger, survey, done.push(info), rest);
}

proof fn lemma_survey_step(world: World, first: Refs, refs: Refs, run: Run, reply: Reply)
    requires
        base_ok(world, run.ledger),
        grounded(world, first, refs, run),
        tracks(world, refs, run),
        world.tells(refs, run.request(), reply),
        run.stage is WalkNames || run.stage is Walk || run.stage is Info || run.stage is Depth,
    ensures
        tracks(world, perform(refs, run.advance(reply).1), run.advance(reply).0),
{
    let ledger = run.ledger;
    match (run.stage, reply) {
        (Stage::WalkNames(goal), Reply::Refs(Ok(records))) => {
            lemma_listed(refs, records);
            let found = local_refs(records)->Ok_0;
            lemma_walk_names(refs, found);
            if found.len() == 0 {
                assert forall|c: Oid| world.is_in_walk(refs, c) implies false by {
                    let n = choose|n: Text| #[trigger]
                        refs.contains_key(n) && is_walked(n) && (is_head(n) || is_tag(n))
                            && world.reaches(refs[n], c);
                    assert(holds(refs, Ref { name: n, target: refs[n] }));
                    assert(found.contains(Ref { name: n, target: refs[n] }));
                }
                lemma_walked(world, refs, ledger, goal, Seq::empty());
            }
        },
        (Stage::Walk { goal, names }, Reply::Commits(Ok(commits))) => {
            lemma_covers(world, refs, names, commits);
            lemma_walked(world, refs, ledger, goal, with_root(commits, ledger.root));
        },
        (Stage::Info { survey, done, current, rest }, Reply::TreeAndDate(Ok((tree, date)))) => {
            if current == ledger.root {
                assert(world.range(world.root, world.root) =~= Set::empty());
                let info = CommitInfo { tree_id: tree, depth: 0, cdate: date, oid: current };
                lemma_learned(world, refs, ledger, survey, done, info, rest);
            } else if ledger.depths.contains_key(current) {
                let info = CommitInfo {
                    tree_id: tree,
                    depth: ledger.depths[current],
                    cdate: date,
                    oid: current,
                };
                lemma_learned(world, refs, ledger, survey, done, info, rest);
            }
        },
        (Stage::Depth { survey, done, current, rest, tree, date }, Reply::Count(Ok(depth))) => {
            let info = CommitInfo { tree_id: tree, depth, cdate: date, oid: current };
            let next = Ledger { depths: ledger.depths.insert(current, depth), ..ledger };
            lemma_learned(world, refs, next, survey, done, info, rest);
        },
        _ => {},
    }
}

proof fn lemma_unbranched(shared: Seq<Oid>, found: Seq<Ref>, root: Oid, c: Oid)
    requires
        unbranched(shared, found, root).contains(c),
    ensures
        shared.contains(c),
        c != root,
{
    let wanted = is_unbranched(found, root);
    lemma_distinct(shared.filter(wanted));
    assert(shared.filter(wanted).contains(c));
    shared.lemma_filter_contains_rev(wanted, c);
    let i = choose|i: int| 0 <= i < shared.filter(wanted).len() && shared.filter(wanted)[i] == c;
    shared.lemma_filter_pred(wanted, i);
}

proof fn lemma_chosen_alike(world: World, refs: Refs, next: Refs, chosen: Map<Oid, Oid>)
    requires
        is_alike(world, refs, next),
        chosen_ok(world, refs, chosen),
    ensures
        chosen_ok(world, next, chosen),
{
    assert forall|c: Oid| #[trigger] chosen.contains_key(c) implies world.is_in_scope(next, c) && (
    chosen[c] == c <==> world.is_best(next, c)) by {
        assert(world.is_in_walk(next, c) <==> world.is_in_walk(refs, c));
        assert(world.is_best(next, c) <==> world.is_best(refs, c));
        assert(world.is_in_scope(refs, c));
    }
}

proof fn lemma_branch_step(world: World, refs: Refs, run: Run, reply: Reply)
    requires
        base_ok(world, run.ledger),
        tracks(world, refs, run),
        world.tells(refs, run.request(), reply),
        run.stage is Heads || run.stage is Branch,
    ensures
        tracks(world, perform(refs, run.advance(reply).1), run.advance(reply).0),
{
    let ledger = run.ledger;
    match (run.stage, reply) {
        (Stage::Heads { shared }, Reply::Refs(refs_listed)) => {
            if let Ok(found) = listed(refs_listed) {
                let missing = unbranched(shared, found, ledger.root);
                if !ledger.changed {
                    assert forall|i: int| 0 <= i < missing.len() implies world.is_in_walk(
                        refs,
                        #[trigger] missing[i],
                    ) by {
                        assert(missing.contains(missing[i]));
                        lemma_unbranched(shared, found, ledger.root, missing[i]);
                        let k = choose|k: int| 0 <= k < shared.len() && shared[k] == missing[i];
                        assert(world.is_in_scope(refs, shared[k]));
                    }
                }
                lemma_branch(world, refs, ledger, missing, Seq::empty());
            }
        },
        (Stage::Branch { current, rest }, Reply::Found(Ok(_))) => {
            let made = Effect::CreateBranch { name: temporary_branch(current), target: current };
            let next = apply(refs, made);
            lemma_perform_one(refs, made);
            lemma_own_refs(current);
            own_branches_are_recognized(current);
            if !ledger.changed {
                lemma_own_branch(world, refs, temporary_branch(current), current);
                lemma_chosen_alike(world, refs, next, ledger.canonicals);
                assert forall|i: int| 0 <= i < rest.len() implies world.is_in_walk(
                    next,
                    #[trigger] rest[i],
                ) by {
                    assert(world.is_in_walk(refs, rest[i]));
                }
            }
            lemma_branch(
                world,
                refs,
                Ledger { added: true, plan: ledger.plan.push(branching_plan(current)), ..ledger },
                rest,
                seq![made],
            );
        },
        _ => {},
    }
}

/// The state of a pass carries over to a repository that is alike.
proof fn lemma_scan_alike(
    world: World,
    refs: Refs,
    next: Refs,
    chosen: Map<Oid, Oid>,
    scan: Scan,
)
    requires
        is_alike(world, refs, next),
        chosen_ok(world, refs, chosen),
        scan_due(world, refs, chosen, scan),
        forall|c: Oid| #[trigger]
            world.is_duplicate(refs, c) ==> is_done(world, refs, c) || is_left_in(
                world,
                chosen,
                scan.pass.pattern,
                queue(scan),
                c,
            ),
    ensures
        chosen_ok(world, next, chosen),
        scan_due(world, next, chosen, scan),
        forall|c: Oid| #[trigger]
            world.is_duplicate(next, c) ==> is_done(world, next, c) || is_left_in(
                world,
                chosen,
                scan.pass.pattern,
                queue(scan),
                c,
            ),
{
    lemma_chosen_alike(world, refs, next, chosen);
    let all = queue(scan);
    assert forall|i: int| 0 <= i < all.len() implies {
        let pair = #[trigger] all[i];
        &&& world.is_duplicate(next, pair.commit)
        &&& chosen.contains_key(pair.commit)
        &&& pair.canonical == chosen[pair.commit]
    } by {
        let c = all[i].commit;
        assert(world.is_in_walk(next, c) <==> world.is_in_walk(refs, c));
        assert(world.is_best(next, c) <==> world.is_best(refs, c));
    }
    assert forall|c: Oid| #[trigger] world.is_duplicate(next, c) implies is_done(world, next, c)
        || is_left_in(world, chosen, scan.pass.pattern, all, c) by {
        assert(world.is_in_walk(next, c) <==> world.is_in_walk(refs, c));
        assert(world.is_best(next, c) <==> world.is_best(refs, c));
        assert(world.is_bare(next, c) <==> world.is_bare(refs, c));
        assert(world.is_duplicate(refs, c));
    }
}

proof fn lemma_candidate_step(world: World, refs: Refs, run: Run, reply: Reply)
    requires
        base_ok(world, run.ledger),
        tracks(world, refs, run),
        world.tells(refs, run.request(), reply),
        run.stage is Candidate,
    ensures
        tracks(world, perform(refs, run.advance(reply).1), run.advance(reply).0),
{
    let ledger = run.ledger;
    let chosen = ledger.canonicals;
    if let (Stage::Candidate(scan), Reply::Answer(answer)) = (run.stage, reply) {
        let all = queue(scan);
        let c = scan.current.commit;
        assert(all[0] == scan.current);
        if !ledger.changed {
            assert(scan.current.canonical == chosen[c]);
            assert((answer == Ok::<bool, Failure>(true)) == world.descends(c, chosen[c]));
            if !is_due(world, chosen, scan.pass.pattern, c) {
                assert forall|i: int| 0 <= i < scan.rest.len() implies {
                    let pair = #[trigger] scan.rest[i];
                    &&& world.is_duplicate(refs, pair.commit)
                    &&& chosen.contains_key(pair.commit)
                    &&& pair.canonical == chosen[pair.commit]
                } by {
                    assert(all[i + 1] == scan.rest[i]);
                }
                assert forall|d: Oid| #[trigger] world.is_duplicate(refs, d) implies is_done(
                    world,
                    refs,
                    d,
                ) || is_left_in(world, chosen, scan.pass.pattern, scan.rest, d) by {
                    if !is_done(world, refs, d) && is_due(world, chosen, scan.pass.pattern, d)
                        && is_queued(all, d) {
                        let i = choose|i: int|
                            0 <= i < all.len() && (#[trigger] all[i]).commit == d;
                        assert(i > 0);
                        assert(scan.rest[i - 1].commit == d);
                    }
                }
            }
        }
        if !((answer == Ok::<bool, Failure>(true)) == (scan.pass.pattern == Pattern::Shallow)) {
            lemma_scan(world, refs, ledger, scan.pass, scan.rest, Seq::empty());
        }
    }
}

proof fn lemma_keep_step(world: World, refs: Refs, run: Run, reply: Reply)
    requires
        base_ok(world, run.ledger),
        tracks(world, refs, run),
        world.tells(refs, run.request(), reply),
        run.stage is KeepRef || run.stage is KeepCommit,
    ensures
        tracks(world, perform(refs, run.advance(reply).1), run.advance(reply).0),
{
    let ledger = run.ledger;
    match (run.stage, reply) {
        (Stage::KeepCommit(scan), Reply::Found(Ok(_))) => {
            let c = scan.current.commit;
            let made = Effect::CreateBranch { name: keep_branch(c), target: c };
            let next = apply(refs, made);
            lemma_perform_one(refs, made);
            lemma_own_refs(c);
            own_branches_are_recognized(c);
            if !ledger.changed {
                assert(queue(scan)[0] == scan.current);
                lemma_own_branch(world, refs, keep_branch(c), c);
                lemma_scan_alike(world, refs, next, ledger.canonicals, scan);
            }
        },
        _ => {},
    }
}

proof fn lemma_sweep_step(world: World, first: Refs, refs: Refs, run: Run, reply: Reply)
    requires
        base_ok(world, run.ledger),
        grounded(world, first, refs, run),
        tracks(world, refs, run),
        world.tells(refs, run.request(), reply),
        run.stage is Branches || run.stage is Descends,
    ensures
        tracks(world, perform(refs, run.advance(reply).1), run.advance(reply).0),
{
    let ledger = run.ledger;
    match (run.stage, reply) {
        (Stage::Branches(scan), Reply::Refs(Ok(records))) => {
            lemma_listed(refs, records);
            let found = local_refs(records)->Ok_0;
            let c = scan.current.commit;
            let heads = movable(found, c);
            let wanted = |r: Ref| is_movable(r.name) && r.target != c;
            assert(heads == found.filter(wanted));
            assert forall|name: Text| #[trigger]
                refs.contains_key(name) && is_movable(name) && world.descends(
                    refs[name],
                    c,
                ) implies heads.contains(Ref { name, target: refs[name] }) by {
                let r = Ref { name, target: refs[name] };
                assert(holds(refs, r));
                assert(found.contains(r));
                let i = choose|i: int| 0 <= i < found.len() && found[i] == r;
                found.lemma_filter_contains(wanted, i);
            }
            lemma_sweep(world, refs, ledger, scan, heads, Seq::empty());
        },
        (Stage::Descends(sweep), Reply::Answer(answer)) => {
            let c = sweep.scan.current.commit;
            let all = seq![sweep.head] + sweep.rest;
            assert(all[0] == sweep.head);
            assert(holds(refs, all[0]));
            if answer != Ok::<bool, Failure>(true) {
                if !ledger.changed {
                    assert forall|name: Text| #[trigger]
                        refs.contains_key(name) && is_movable(name) && world.descends(
                            refs[name],
                            c,
                        ) implies sweep.rest.contains(Ref { name, target: refs[name] }) by {
                        let r = Ref { name, target: refs[name] };
                        assert(all.contains(r));
                        let i = choose|i: int| 0 <= i < all.len() && all[i] == r;
                        assert(i > 0);
                        assert(sweep.rest[i - 1] == r);
                    }
                }
                lemma_sweep(world, refs, ledger, sweep.scan, sweep.rest, Seq::empty());
            }
        },
        _ => {},
    }
}

proof fn lemma_move_step(world: World, refs: Refs, run: Run, reply: Reply)
    requires
        base_ok(world, run.ledger),
        tracks(world, refs, run),
        is_moving(run.stage),
    ensures
        tracks(world, perform(refs, run.advance(reply).1), run.advance(reply).0),
{
    let ledger = run.ledger;
    match (run.stage, reply) {
        (Stage::Tip(sweep), Reply::Commit(_)) => {
            lemma_relocated(world, refs, ledger, sweep, Seq::empty());
        },
        (Stage::Line { sweep, .. }, Reply::Commits(_)) => {
            lemma_relocated(world, refs, ledger, sweep, Seq::empty());
        },
        (Stage::Signature { sweep, commits }, Reply::Found(_)) => {
            let parent = sweep.scan.current.canonical;
            let moved = Effect::SetRef {
                name: sweep.head.name,
                target: parent,
                message: "rebase_branch_onto"@,
            };
            lemma_relocated(world, refs, ledger, sweep, Seq::empty());
            lemma_relocated(world, refs, ledger, sweep, seq![moved]);
        },
        (Stage::Copy { sweep, current, rest, .. }, Reply::Commit(commit)) => {
            lemma_relocated(world, refs, ledger, sweep, Seq::empty());
            if let Ok(copy) = commit {
                let next = Ledger { rewrites: ledger.rewrites.insert(current, copy), ..ledger };
                let moved = Effect::SetRef {
                    name: sweep.head.name,
                    target: copy,
                    message: "rebase_branch_onto"@,
                };
                lemma_relocated(world, refs, next, sweep, seq![moved]);
            }
        },
        _ => {},
    }
}

proof fn lemma_closing_step(world: World, refs: Refs, run: Run, reply: Reply)
    requires
        base_ok(world, run.ledger),
        tracks(world, refs, run),
        is_closing(run.stage),
    ensures
        tracks(world, perform(refs, run.advance(reply).1), run.advance(reply).0),
{
    let ledger = run.ledger;
    match (run.stage, reply) {
        (Stage::Tag { tag, target, rest }, Reply::Found(Ok(_))) => {
            let name = trimmed(tag.name, "refs/tags/"@);
            let moved = Effect::SetTag { name, target };
            lemma_perform_one(refs, moved);
            lemma_tag_aside(world, refs, name, target);
            lemma_settled_alike(world, refs, apply(refs, moved));
            lemma_tag(world, refs, ledger, rest, seq![moved]);
        },
        (Stage::Cleanup, Reply::Refs(found)) => {
            let names = match found {
                Ok(records) => temporary_branches(records),
                Err(_) => Seq::empty(),
            };
            if let Ok(records) = found {
                lemma_temporary_branches(records);
            }
            lemma_delete(refs, names);
            lemma_settled_without(world, refs, perform(refs, delete_branches(names)));
            lemma_perform_lines(refs, delete_branches(names), seq![Effect::Print(finished())]);
        },
        _ => {},
    }
}

pub(crate) proof fn lemma_tracks_step(
    world: World,
    first: Refs,
    refs: Refs,
    run: Run,
    reply: Reply,
)
    requires
        world.wf(),
        !run.ledger.options.dry_run,
        grounded(world, first, refs, run),
        tracks(world, refs, run),
        world.tells(refs, run.request(), reply),
    ensures
        tracks(world, perform(refs, run.advance(reply).1), run.advance(reply).0),
{
    match run.stage {
        Stage::WalkNames(_) => {
            lemma_survey_step(world, first, refs, run, reply);
        },
        Stage::Walk { .. } => {
            lemma_survey_step(world, first, refs, run, reply);
        },
        Stage::Info { .. } => {
            lemma_survey_step(world, first, refs, run, reply);
        },
        Stage::Depth { .. } => {
            lemma_survey_step(world, first, refs, run, reply);
        },
        Stage::Heads { .. } => {
            lemma_branch_step(world, refs, run, reply);
        },
        Stage::Branch { .. } => {
            lemma_branch_step(world, refs, run, reply);
        },
        Stage::Candidate(_) => {
            lemma_candidate_step(world, refs, run, reply);
        },
        Stage::KeepRef(_) => {
            lemma_keep_step(world, refs, run, reply);
        },
        Stage::KeepCommit(_) => {
            lemma_keep_step(world, refs, run, reply);
        },
        Stage::Branches(_) => {
            lemma_sweep_step(world, first, refs, run, reply);
        },
        Stage::Descends(_) => {
            lemma_sweep_step(world, first, refs, run, reply);
        },
        Stage::Tip(_) => {
            lemma_move_step(world, refs, run, reply);
        },
        Stage::Line { .. } => {
            lemma_move_step(world, refs, run, reply);
        },
        Stage::Signature { .. } => {
            lemma_move_step(world, refs, run, reply);
        },
        Stage::Copy { .. } => {
            lemma_move_step(world, refs, run, reply);
        },
        Stage::Tag { .. } => {
            lemma_closing_step(world, refs, run, reply);
        },
        Stage::Cleanup => {
            lemma_closing_step(world, refs, run, reply);
        },
        _ => {},
    }
}

pub(crate) proof fn lemma_tracks(
    world: World,
    first: Refs,
    options: Options,
    root: Oid,
    replies: Seq<Reply>,
)
    requires
        world.wf(),
        !options.dry_run,
        world.is_honest(first, start(options, root), replies),
    ensures
        ({
            let (refs, run) = course(first, start(options, root), replies);
            tracks(world, refs, run) && run.ledger.options == options
        }),
    decreases replies.len(),
{
    lemma_course(first, start(options, root), replies);
    runs_are_sound(options, root, replies);
    if replies.len() > 0 {
        let front = replies.drop_last();
        lemma_tracks(world, first, options, root, front);
        lemma_grounded(world, first, options, root, front);
        let (refs, run) = course(first, start(options, root), front);
        lemma_tracks_step(world, first, refs, run, replies.last());
    }
}

/// A run that succeeds, and is not dry, leaves a repository in which every duplicate is kept and no
/// branch that the run may move is above one.
pub proof fn success_settles(
    world: World,
    first: Refs,
    options: Options,
    root: Oid,
    replies: Seq<Reply>,
)
    requires
        world.wf(),
        !options.dry_run,
        world.is_honest(first, start(options, root), replies),
        course(first, start(options, root), replies).1.request() == Request::Finished(
            Outcome::Success,
        ),
    ensures
        world.is_settled(course(first, start(options, root), replies).0),
{
    lemma_tracks(world, first, options, root, replies);
}

/// The root comes before all commits above it with its tree.
proof fn lemma_root_first(world: World, refs: Refs, c: Oid)
    requires
        world.wf(),
        world.is_in_walk(refs, c),
        (world.tree)(c) == (world.tree)(world.root),
    ensures
        !world.is_best(refs, c),
{
    lemma_depth_fits(world, c);
    assert(world.reaches(c, c));
    let range = world.range(c, world.root);
    assert(range.contains(c));
    assert(range.len() > 0) by {
        if range.len() == 0 {
            assert(range =~= Set::empty());
        }
    }
    assert(world.range(world.root, world.root) =~= Set::empty());
    assert(world.fact(world.root).ranks_before(world.fact(c)));
    assert(world.is_in_scope(refs, world.root));
}

/// After a run that has succeeded, and was not dry, no two commits below the tips of branches have
/// the same tree, and none has the tree of the root. That is of commits above the root, and of the
/// branches that are not the run's own and do not stand in for tags.
pub proof fn commits_below_tips_have_trees_of_their_own(
    world: World,
    first: Refs,
    options: Options,
    root: Oid,
    replies: Seq<Reply>,
    a: Text,
    b: Text,
    c: Oid,
    d: Oid,
)
    requires
        world.wf(),
        !options.dry_run,
        world.is_honest(first, start(options, root), replies),
        course(first, start(options, root), replies).1.request() == Request::Finished(
            Outcome::Success,
        ),
        ({
            let refs = course(first, start(options, root), replies).0;
            &&& refs.contains_key(a) && is_movable(a) && !is_tag_stand_in(a)
            &&& refs.contains_key(b) && is_movable(b) && !is_tag_stand_in(b)
            &&& world.descends(refs[a], c) && !world.reaches(world.root, c)
            &&& world.descends(refs[b], d) && !world.reaches(world.root, d)
        }),
    ensures
        c != d ==> (world.tree)(c) != (world.tree)(d),
        (world.tree)(c) != (world.tree)(world.root),
{
    let refs = course(first, start(options, root), replies).0;
    success_settles(world, first, options, root, replies);
    lemma_heads_are_no_tags(a);
    lemma_heads_are_no_tags(b);
    assert(is_walked(a) && world.is_in_walk(refs, c));
    assert(is_walked(b) && world.is_in_walk(refs, d));
    if (world.tree)(c) == (world.tree)(world.root) {
        lemma_root_first(world, refs, c);
        assert(world.is_duplicate(refs, c));
        assert(!world.descends(refs[a], c));
    }
    if c != d && (world.tree)(c) == (world.tree)(d) {
        Oid::less_is_strict_total_order(c, d, d);
        assert(world.is_in_scope(refs, c));
        assert(world.is_in_scope(refs, d));
        if world.fact(c).ranks_before(world.fact(d)) {
            assert(!world.is_best(refs, d));
            assert(world.is_duplicate(refs, d));
            assert(!world.descends(refs[b], d));
        } else {
            assert(world.fact(d).ranks_before(world.fact(c)));
            assert(!world.is_best(refs, c));
            assert(world.is_duplicate(refs, c));
            assert(!world.descends(refs[a], c));
        }
    }
}

} // verus!
