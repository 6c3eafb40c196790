//! Whatever is moved, no tree is lost.
use vstd::prelude::*;
use crate::laws::keeping::{
    keeps, leaving, lemma_copy_goes_on, lemma_relocated_goes_on, lemma_scan_goes_on, lemma_step,
    lemma_sweep_goes_on, lemma_tag_goes_on, lemma_walked_goes_on,
};
use crate::laws::preserving::{dry_runs_leave_references_alone, grounded, lemma_grounded};
use crate::laws::world::{
    apply, course, holds, lemma_course, lemma_own_refs, lemma_perform_add, lemma_perform_one,
    lemma_tag_name, lemma_temporary_names, perform, Refs, World,
};
use crate::messages::{
    moving, moving_plan, moving_tags, nothing_to_do, round_begins, too_many_rounds,
};
use crate::model::{
    listed, restore, start, succ, Effect, Goal, Ledger, Options, Reply, Run, Stage, Sweep,
};
use crate::oid::{hex, Oid};
use crate::refs::{
    is_head, is_keep, is_movable, is_temporary, keep_branch, keep_ref, movable, tags_of,
    temporary_branch, Ref,
};
use crate::text::{trimmed, Text};
use crate::walk::{candidates, with_root};
use crate::laws::soundness::{effects_are_permitted, permitted, runs_are_sound, stage_ok};
use crate::laws::rounds::{
    is_calm, lemma_relocated_sets, lemma_scan_sets, lemma_sweep_sets, lemma_tag_sets,
};
use crate::laws::naming::{
    names_are_told_by_how_they_begin, own_branches_are_apart, own_branches_are_recognized,
};
use crate::laws::replay::replay;

verus! {

/// A commit above the canonical one has the tree of `x`.
spec fn has_copy(world: World, canonical: Oid, parent: Oid, x: Oid) -> bool {
    exists|y: Oid| #[trigger]
        world.reaches(parent, y) && !world.reaches(canonical, y) && (world.tree)(y) == (world.tree)(
            x,
        )
}

/// The commits of the branch above the duplicate are copied, or left to copy.
spec fn carries(world: World, sweep: Sweep, parent: Oid, left: Seq<Oid>) -> bool {
    &&& world.reaches(parent, sweep.scan.current.canonical)
    &&& forall|x: Oid| #[trigger]
        world.range(sweep.head.target, sweep.scan.current.commit).contains(x) ==> left.contains(x)
            || has_copy(world, sweep.scan.current.canonical, parent, x)
}

spec fn stage_carries(world: World, stage: Stage) -> bool {
    match stage {
        Stage::Signature { sweep, commits } => carries(
            world,
            sweep,
            sweep.scan.current.canonical,
            commits,
        ),
        Stage::Copy { sweep, parent, current, rest } => carries(
            world,
            sweep,
            parent,
            seq![current] + rest,
        ),
        _ => true,
    }
}

/// A copy has the tree of its source, which is then no longer left.
proof fn lemma_copy_carries(
    world: World,
    sweep: Sweep,
    parent: Oid,
    current: Oid,
    rest: Seq<Oid>,
    copy: Oid,
)
    requires
        world.wf(),
        carries(world, sweep, parent, seq![current] + rest),
        (world.tree)(copy) == (world.tree)(current),
        (world.reach)(copy) == (world.reach)(parent).insert(copy),
        !world.reaches(parent, copy),
    ensures
        carries(world, sweep, copy, rest),
{
    let canonical = sweep.scan.current.canonical;
    let left = seq![current] + rest;
    assert(world.reaches(copy, canonical));
    assert forall|x: Oid| #[trigger]
        world.range(sweep.head.target, sweep.scan.current.commit).contains(x) implies rest.contains(
        x,
    ) || has_copy(world, canonical, copy, x) by {
        if has_copy(world, canonical, parent, x) {
            let y = choose|y: Oid| #[trigger]
                world.reaches(parent, y) && !world.reaches(canonical, y) && (world.tree)(y) == (
                world.tree)(x);
            assert(world.reaches(copy, y));
        } else {
            let i = choose|i: int| 0 <= i < left.len() && left[i] == x;
            if i > 0 {
                assert(rest[i - 1] == x);
            } else {
                assert(world.reaches(copy, copy));
                if world.reaches(canonical, copy) {
                    assert(world.reaches(parent, copy));
                }
            }
        }
    }
}

proof fn lemma_carries_step(world: World, first: Refs, refs: Refs, run: Run, reply: Reply)
    requires
        world.wf(),
        grounded(world, first, refs, run),
        stage_carries(world, run.stage),
        world.tells(refs, run.request(), reply),
    ensures
        stage_carries(world, run.advance(reply).0.stage),
{
    let ledger = run.ledger;
    match (run.stage, reply) {
        (Stage::Line { sweep, tip }, Reply::Commits(Ok(commits))) => {
            let (commit, canonical) = (sweep.scan.current.commit, sweep.scan.current.canonical);
            assert(world.reaches(canonical, canonical));
            assert forall|x: Oid| #[trigger]
                world.range(sweep.head.target, commit).contains(x) implies commits.contains(x) by {
                assert(commits.to_set().contains(x));
            }
        },
        (Stage::Signature { sweep, commits }, Reply::Found(Ok(_))) => {
            assert(commits.len() > 0);
            assert(seq![commits[0]] + commits.drop_first() =~= commits);
        },
        (Stage::Copy { sweep, parent, current, rest }, Reply::Commit(Ok(copy))) => {
            lemma_copy_carries(world, sweep, parent, current, rest, copy);
            if rest.len() > 0 {
                assert(seq![rest[0]] + rest.drop_first() =~= rest);
            } else {
                lemma_elsewhere(run, reply);
            }
        },
        _ => {
            lemma_elsewhere(run, reply);
        },
    }
}

/// Other steps than these do not lead to copies.
proof fn lemma_elsewhere(run: Run, reply: Reply)
    requires
        !(run.stage is Line && (reply matches Reply::Commits(Ok(_)))),
        !(run.stage is Signature && (reply matches Reply::Found(Ok(_)))),
        run.stage matches Stage::Copy { rest, .. } ==> ((reply matches Reply::Commit(Ok(_)))
            ==> rest.len() == 0),
    ensures
        run.advance(reply).0.stage == run.stage || run.advance(reply).0.stage !is Signature
            && run.advance(reply).0.stage !is Copy,
{
    let ledger = run.ledger;
    match (run.stage, reply) {
        (Stage::WalkNames(goal), Reply::Refs(_)) => {
            lemma_walked_goes_on(ledger, goal, Seq::empty());
            lemma_walked_elsewhere(ledger, goal, Seq::empty());
        },
        (Stage::Walk { goal, .. }, Reply::Commits(Ok(commits))) => {
            lemma_walked_elsewhere(ledger, goal, with_root(commits, ledger.root));
        },
        (Stage::Candidate(scan), Reply::Answer(_)) => {
            lemma_scan_goes_on(ledger, scan.pass, scan.rest, Seq::empty());
        },
        (Stage::Branches(scan), Reply::Refs(refs)) => {
            if let Ok(refs) = listed(refs) {
                lemma_sweep_goes_on(
                    ledger,
                    scan,
                    movable(refs, scan.current.commit),
                    Seq::empty(),
                );
            }
        },
        (Stage::Descends(sweep), Reply::Answer(_)) => {
            lemma_relocate_elsewhere(ledger, sweep);
            lemma_sweep_goes_on(
                ledger,
                sweep.scan,
                sweep.rest,
                Seq::empty(),
            );
        },
        (Stage::Tip(sweep), Reply::Commit(_)) => {
            lemma_relocated_goes_on(ledger, sweep, Seq::empty());
        },
        (Stage::Line { sweep, .. }, Reply::Commits(_)) => {
            lemma_relocated_goes_on(ledger, sweep, Seq::empty());
        },
        (Stage::Signature { sweep, .. }, Reply::Found(_)) => {
            lemma_relocated_goes_on(ledger, sweep, Seq::empty());
        },
        (Stage::Copy { sweep, current, rest, .. }, Reply::Commit(written)) => {
            lemma_relocated_goes_on(ledger, sweep, Seq::empty());
            if let Ok(copy) = written {
                let noted = Ledger { rewrites: ledger.rewrites.insert(current, copy), ..ledger };
                lemma_copy_goes_on(noted, sweep, copy, rest);
            }
        },
        (Stage::Tag { tag, target, rest }, Reply::Found(Ok(_))) => {
            let moved = Effect::SetTag { name: trimmed(tag.name, "refs/tags/"@), target };
            lemma_tag_goes_on(ledger, rest, seq![moved]);
        },
        _ => {},
    }
}

proof fn lemma_walked_elsewhere(ledger: Ledger, goal: Goal, commits: Seq<Oid>)
    ensures
        ledger.walked(goal, commits).0.stage !is Signature,
        ledger.walked(goal, commits).0.stage !is Copy,
{
    lemma_walked_goes_on(ledger, goal, commits);
}

proof fn lemma_relocate_elsewhere(ledger: Ledger, sweep: Sweep)
    ensures
        ledger.relocate(sweep).0.stage !is Signature,
        ledger.relocate(sweep).0.stage !is Copy,
{
    let pass = sweep.scan.pass;
    let spot = sweep.scan.current;
    let planned = Ledger {
        plan: ledger.plan.push(
            moving_plan(pass.pattern, sweep.head.name, spot.canonical, spot.commit),
        ),
        ..ledger
    };
    let said = Effect::Print(
        moving(pass.pattern, ledger.round, pass.number, sweep.head.name, spot.canonical),
    );
    lemma_sweep_goes_on(planned, sweep.scan, sweep.rest, seq![said]);
}

proof fn lemma_carried(world: World, first: Refs, options: Options, root: Oid, replies: Seq<Reply>)
    requires
        world.wf(),
        world.is_honest(first, start(options, root), replies),
    ensures
        stage_carries(world, course(first, start(options, root), replies).1.stage),
    decreases replies.len(),
{
    if replies.len() > 0 {
        let front = replies.drop_last();
        lemma_carried(world, first, options, root, front);
        lemma_grounded(world, first, options, root, front);
        let (refs, run) = course(first, start(options, root), front);
        lemma_carries_step(world, first, refs, run, replies.last());
    }
}

/// When the last copy for a branch is written, all trees that the branch has above the duplicate are
/// there once more, above the canonical commit.
pub proof fn copies_have_all_trees(
    world: World,
    first: Refs,
    options: Options,
    root: Oid,
    replies: Seq<Reply>,
    sweep: Sweep,
    parent: Oid,
    current: Oid,
    copy: Oid,
    x: Oid,
)
    requires
        world.wf(),
        world.is_honest(first, start(options, root), replies),
        ({
            let (refs, run) = course(first, start(options, root), replies);
            &&& run.stage == (Stage::Copy { sweep, parent, current, rest: Seq::empty() })
            &&& world.tells(refs, run.request(), Reply::Commit(Ok(copy)))
        }),
        (world.reach)(sweep.head.target).contains(x),
        !(world.reach)(sweep.scan.current.commit).contains(x),
    ensures
        (world.reach)(copy).contains(sweep.scan.current.canonical),
        exists|y: Oid| #[trigger]
            (world.reach)(copy).contains(y) && !(world.reach)(
                sweep.scan.current.canonical,
            ).contains(y) && (world.tree)(y) == (world.tree)(x),
{
    lemma_carried(world, first, options, root, replies);
    lemma_copy_carries(world, sweep, parent, current, Seq::empty(), copy);
    assert(world.reaches(copy, sweep.scan.current.canonical));
    assert(world.range(sweep.head.target, sweep.scan.current.commit).contains(x));
    assert(!Seq::<Oid>::empty().contains(x));
    let y = choose|y: Oid| #[trigger]
        world.reaches(copy, y) && !world.reaches(sweep.scan.current.canonical, y) && (world.tree)(y)
            == (world.tree)(x);
    assert((world.reach)(copy).contains(y));
}

/// The branches that keep commits reach them.
spec fn keeps_reach(world: World, refs: Refs) -> bool {
    forall|c: Oid| #[trigger]
        refs.contains_key(keep_ref(c)) ==> world.reaches(refs[keep_ref(c)], c)
}

/// The branches that kept commits when the run began are where they were.
spec fn keeps_stay(first: Refs, refs: Refs) -> bool {
    forall|name: Text| #[trigger]
        first.contains_key(name) && is_keep(name) ==> refs.contains_key(name) && refs[name]
            == first[name]
}

/// The branch, or one that keeps a commit, reaches a commit with the tree of `x`.
spec fn survives(world: World, refs: Refs, name: Text, x: Oid) -> bool {
    exists|n: Text, y: Oid|
        #![trigger refs.contains_key(n), world.reaches(refs[n], y)]
        refs.contains_key(n) && (n == name || is_keep(n)) && world.reaches(refs[n], y) && (
        world.tree)(y) == (world.tree)(x)
}

/// The trees of all branches are there.
spec fn treasures(world: World, first: Refs, refs: Refs) -> bool {
    forall|name: Text, x: Oid|
        #![trigger first.contains_key(name), world.reaches(first[name], x)]
        first.contains_key(name) && is_head(name) && !is_temporary(name) && world.reaches(
            first[name],
            x,
        ) ==> survives(world, refs, name, x)
}

spec fn is_safe(world: World, first: Refs, refs: Refs) -> bool {
    keeps_reach(world, refs) && keeps_stay(first, refs) && treasures(world, first, refs)
}

/// The effect moves no branch.
spec fn is_harmless(first: Refs, effect: Effect) -> bool {
    match effect {
        Effect::CreateBranch { name, target } => name == temporary_branch(target) || name
            == keep_branch(target),
        Effect::SetRef { name, target, .. } => first.contains_key(name) && first[name] == target,
        Effect::DeleteBranch { name } => "gto/"@.is_prefix_of(name),
        _ => true,
    }
}

proof fn lemma_keep_names(name: Text)
    ensures
        is_keep(name) ==> is_head(name) && !is_temporary(name) && !is_movable(name),
{
    reveal_strlit("refs/heads/");
    reveal_strlit("refs/heads/gto-keep/");
    lemma_temporary_names(name);
    if is_keep(name) {
        assert forall|i: int| 0 <= i < 11 implies name[i] == "refs/heads/"@[i] by {
            assert(name.take(20)[i] == "refs/heads/gto-keep/"@[i]);
        }
        assert(name.take(11) =~= "refs/heads/"@);
    }
}

/// Where the branches by which trees survive are as they were, the trees survive.
proof fn lemma_survives(world: World, refs: Refs, next: Refs, name: Text, x: Oid)
    requires
        survives(world, refs, name, x),
        forall|n: Text| #[trigger]
            refs.contains_key(n) && (n == name || is_keep(n)) ==> next.contains_key(n) && next[n]
                == refs[n],
    ensures
        survives(world, next, name, x),
{
    let (n, y) = choose|n: Text, y: Oid|
        #![trigger refs.contains_key(n), world.reaches(refs[n], y)]
        refs.contains_key(n) && (n == name || is_keep(n)) && world.reaches(refs[n], y) && (
        world.tree)(y) == (world.tree)(x);
    assert(next.contains_key(n) && world.reaches(next[n], y));
}

proof fn lemma_all_survive(world: World, first: Refs, refs: Refs, next: Refs)
    requires
        treasures(world, first, refs),
        forall|n: Text| #[trigger]
            refs.contains_key(n) && is_head(n) && !is_temporary(n) ==> next.contains_key(n)
                && next[n] == refs[n],
    ensures
        treasures(world, first, next),
{
    assert forall|name: Text, x: Oid|
        #![trigger first.contains_key(name), world.reaches(first[name], x)]
        first.contains_key(name) && is_head(name) && !is_temporary(name) && world.reaches(
            first[name],
            x,
        ) implies survives(world, next, name, x) by {
        assert forall|n: Text| #[trigger]
            refs.contains_key(n) && (n == name || is_keep(n)) implies next.contains_key(n)
            && next[n] == refs[n] by {
            lemma_keep_names(n);
        }
        lemma_survives(world, refs, next, name, x);
    }
}

proof fn lemma_created(world: World, first: Refs, refs: Refs, name: Text, target: Oid)
    requires
        world.wf(),
        is_safe(world, first, refs),
        name == temporary_branch(target) || name == keep_branch(target),
    ensures
        is_safe(world, first, apply(refs, Effect::CreateBranch { name, target })),
{
    let next = apply(refs, Effect::CreateBranch { name, target });
    let full = "refs/heads/"@ + name;
    lemma_own_refs(target);
    own_branches_are_recognized(target);
    lemma_all_survive(world, first, refs, next);
    assert forall|c: Oid| #[trigger] next.contains_key(keep_ref(c)) implies world.reaches(
        next[keep_ref(c)],
        c,
    ) by {
        if !refs.contains_key(keep_ref(c)) {
            assert(keep_ref(c) == full);
            own_branches_are_recognized(c);
            assert(name == keep_branch(target));
            lemma_own_refs(c);
            "refs/heads/"@.lemma_concat_injective(keep_branch(c), keep_branch(target));
            own_branches_are_apart(c, target);
            assert(world.reaches(c, c));
        }
    }
}

proof fn lemma_put_back(world: World, first: Refs, refs: Refs, name: Text)
    requires
        world.wf(),
        is_safe(world, first, refs),
        keeps_reach(world, first),
        first.contains_key(name),
    ensures
        is_safe(world, first, refs.insert(name, first[name])),
{
    let next = refs.insert(name, first[name]);
    assert forall|other: Text, x: Oid|
        #![trigger first.contains_key(other), world.reaches(first[other], x)]
        first.contains_key(other) && is_head(other) && !is_temporary(other) && world.reaches(
            first[other],
            x,
        ) implies survives(world, next, other, x) by {
        if other == name {
            assert(next.contains_key(name) && world.reaches(next[name], x));
        } else {
            assert(survives(world, refs, other, x));
            lemma_survives(world, refs, next, other, x);
        }
    }
}

proof fn lemma_harmless(world: World, first: Refs, refs: Refs, effect: Effect)
    requires
        world.wf(),
        keeps_reach(world, first),
        is_safe(world, first, refs),
        is_harmless(first, effect),
    ensures
        is_safe(world, first, apply(refs, effect)),
        forall|n: Text| #[trigger]
            refs.contains_key(n) && is_keep(n) ==> apply(refs, effect).contains_key(n),
{
    let next = apply(refs, effect);
    match effect {
        Effect::CreateBranch { name, target } => {
            lemma_created(world, first, refs, name, target);
        },
        Effect::SetRef { name, target, .. } => {
            lemma_put_back(world, first, refs, name);
        },
        Effect::SetTag { name, target } => {
            lemma_tag_name(name);
            lemma_all_survive(world, first, refs, next);
            assert forall|n: Text| #[trigger]
                refs.contains_key(n) && is_keep(n) implies next.contains_key(n) && next[n]
                == refs[n] by {
                lemma_keep_names(n);
            }
            assert forall|c: Oid| #[trigger] next.contains_key(keep_ref(c)) implies world.reaches(
                next[keep_ref(c)],
                c,
            ) by {
                own_branches_are_recognized(c);
                lemma_keep_names(keep_ref(c));
                assert(refs.contains_key(keep_ref(c)));
            }
        },
        Effect::DeleteBranch { name } => {
            lemma_temporary_names(name);
            lemma_all_survive(world, first, refs, next);
            assert forall|n: Text| #[trigger]
                refs.contains_key(n) && is_keep(n) implies next.contains_key(n) && next[n]
                == refs[n] by {
                lemma_keep_names(n);
            }
            assert forall|c: Oid| #[trigger] next.contains_key(keep_ref(c)) implies world.reaches(
                next[keep_ref(c)],
                c,
            ) by {
                assert(refs.contains_key(keep_ref(c)));
            }
        },
        _ => {},
    }
}

proof fn lemma_all_harmless(world: World, first: Refs, refs: Refs, effects: Seq<Effect>)
    requires
        world.wf(),
        keeps_reach(world, first),
        is_safe(world, first, refs),
        forall|i: int| 0 <= i < effects.len() ==> is_harmless(first, #[trigger] effects[i]),
    ensures
        is_safe(world, first, perform(refs, effects)),
        forall|n: Text| #[trigger]
            refs.contains_key(n) && is_keep(n) ==> perform(refs, effects).contains_key(n),
    decreases effects.len(),
{
    if effects.len() > 0 {
        let front = effects.drop_last();
        assert forall|i: int| 0 <= i < front.len() implies is_harmless(
            first,
            #[trigger] front[i],
        ) by {
            assert(front[i] == effects[i]);
        }
        lemma_all_harmless(world, first, refs, front);
        assert(is_harmless(first, effects[effects.len() - 1]));
        lemma_harmless(world, first, perform(refs, front), effects.last());
    }
}

/// A branch that is moved takes its trees with it, or leaves them to the branch that keeps the
/// duplicate.
proof fn lemma_moved(world: World, first: Refs, refs: Refs, sweep: Sweep, target: Oid)
    requires
        world.wf(),
        is_safe(world, first, refs),
        holds(refs, sweep.head),
        is_movable(sweep.head.name),
        refs.contains_key(keep_ref(sweep.scan.current.commit)),
        carries(world, sweep, target, Seq::empty()),
    ensures
        is_safe(world, first, refs.insert(sweep.head.name, target)),
{
    let (name, commit) = (sweep.head.name, sweep.scan.current.commit);
    let next = refs.insert(name, target);
    own_branches_are_recognized(commit);
    assert forall|n: Text| #[trigger]
        refs.contains_key(n) && is_keep(n) implies next.contains_key(n) && next[n] == refs[n] by {
        lemma_keep_names(n);
    }
    assert forall|c: Oid| #[trigger] next.contains_key(keep_ref(c)) implies world.reaches(
        next[keep_ref(c)],
        c,
    ) by {
        own_branches_are_recognized(c);
        assert(refs.contains_key(keep_ref(c)));
    }
    assert forall|other: Text, x: Oid|
        #![trigger first.contains_key(other), world.reaches(first[other], x)]
        first.contains_key(other) && is_head(other) && !is_temporary(other) && world.reaches(
            first[other],
            x,
        ) implies survives(world, next, other, x) by {
        let (n, y) = choose|n: Text, y: Oid|
            #![trigger refs.contains_key(n), world.reaches(refs[n], y)]
            refs.contains_key(n) && (n == other || is_keep(n)) && world.reaches(refs[n], y) && (
            world.tree)(y) == (world.tree)(x);
        lemma_keep_names(n);
        if n != name {
            assert(next.contains_key(n) && world.reaches(next[n], y));
        } else if world.reaches(commit, y) {
            let keep = keep_ref(commit);
            assert(world.reaches(refs[keep], commit));
            assert(next.contains_key(keep) && next[keep] == refs[keep]);
            assert(world.reaches(next[keep], y));
        } else {
            assert(world.range(sweep.head.target, commit).contains(y));
            assert(!Seq::<Oid>::empty().contains(y));
            let z = choose|z: Oid| #[trigger]
                world.reaches(target, z) && !world.reaches(sweep.scan.current.canonical, z) && (
                world.tree)(z) == (world.tree)(y);
            assert(next.contains_key(name) && world.reaches(next[name], z));
        }
    }
}

/// What follows a move puts references back at most.
proof fn lemma_after_move(ledger: Ledger, sweep: Sweep, moved: Effect)
    ensures
        ({
            let all = ledger.relocated(sweep, seq![moved]).1;
            &&& all.len() > 0
            &&& all[0] == moved
            &&& is_calm(all.drop_first())
        }),
{
    let all = ledger.relocated(sweep, seq![moved]).1;
    let round = succ(ledger.round);
    let lines = seq![
        moved,
        Effect::Print(round_begins(round)),
        Effect::Warn(too_many_rounds(ledger.options.max_rounds)),
    ];
    let said = seq![moved].push(Effect::Print(round_begins(round)));
    assert(said.push(Effect::Warn(too_many_rounds(ledger.options.max_rounds))) =~= lines);
    assert(all == seq![moved] || all == said || all == lines || all == lines + restore(
        ledger.initial,
        "rollback"@,
    ));
}

/// No other step moves a branch.
proof fn lemma_calm(run: Run, reply: Reply)
    requires
        !run.ledger.options.dry_run,
        run.stage matches Stage::Signature { commits, .. } ==> commits.len() > 0,
        run.stage matches Stage::Copy { rest, .. } ==> ((reply matches Reply::Commit(Ok(_)))
            ==> rest.len() > 0),
    ensures
        is_calm(run.advance(reply).1),
{
    let ledger = run.ledger;
    match (run.stage, reply) {
        (Stage::WalkNames(goal), Reply::Refs(_)) => {
            lemma_walked_calm(ledger, goal, Seq::empty());
        },
        (Stage::Walk { goal, .. }, Reply::Commits(Ok(commits))) => {
            lemma_walked_calm(ledger, goal, with_root(commits, ledger.root));
        },
        (Stage::Candidate(scan), Reply::Answer(_)) => {
            lemma_scan_sets(ledger, scan.pass, scan.rest);
        },
        (Stage::Branches(scan), Reply::Refs(refs)) => {
            if let Ok(refs) = listed(refs) {
                lemma_sweep_sets(ledger, scan, movable(refs, scan.current.commit));
            }
        },
        (Stage::Descends(sweep), Reply::Answer(_)) => {
            lemma_sweep_sets(ledger, sweep.scan, sweep.rest);
        },
        (Stage::Tip(sweep), Reply::Commit(_)) => {
            lemma_relocated_sets(ledger, sweep);
        },
        (Stage::Line { sweep, .. }, Reply::Commits(_)) => {
            lemma_relocated_sets(ledger, sweep);
        },
        (Stage::Signature { sweep, .. }, Reply::Found(_)) => {
            lemma_relocated_sets(ledger, sweep);
        },
        (Stage::Copy { sweep, .. }, Reply::Commit(_)) => {
            lemma_relocated_sets(ledger, sweep);
        },
        (Stage::Tag { tag, target, rest }, Reply::Found(Ok(_))) => {
            let moved = Effect::SetTag { name: trimmed(tag.name, "refs/tags/"@), target };
            lemma_tag_sets(ledger, rest, seq![moved]);
        },
        _ => {},
    }
}

proof fn lemma_walked_calm(ledger: Ledger, goal: Goal, commits: Seq<Oid>)
    requires
        !ledger.options.dry_run,
    ensures
        is_calm(ledger.walked(goal, commits).1),
{
    match goal {
        Goal::Round => {
            let said = seq![Effect::Print(nothing_to_do())];
            lemma_tag_sets(
                ledger,
                tags_of(ledger.initial),
                said.push(Effect::Print(moving_tags())),
            );
        },
        Goal::Pass(pass) => {
            lemma_scan_sets(ledger, pass, candidates(commits, ledger.canonicals, ledger.root));
        },
        _ => {},
    }
}

/// What is permitted and calm is harmless.
proof fn lemma_permitted(world: World, first: Refs, ledger: Ledger, effects: Seq<Effect>)
    requires
        forall|i: int| 0 <= i < ledger.initial.len() ==> holds(first, #[trigger] ledger.initial[i]),
        forall|i: int| 0 <= i < effects.len() ==> permitted(ledger, #[trigger] effects[i]),
        is_calm(effects),
    ensures
        forall|i: int| 0 <= i < effects.len() ==> is_harmless(first, #[trigger] effects[i]),
{
    reveal_strlit("rollback");
    reveal_strlit("rollback_dry_run");
    reveal_strlit("rebase_branch_onto");
    assert("rollback"@.len() != "rebase_branch_onto"@.len());
    assert("rollback_dry_run"@.len() != "rebase_branch_onto"@.len());
    assert forall|i: int| 0 <= i < effects.len() implies is_harmless(
        first,
        #[trigger] effects[i],
    ) by {
        assert(permitted(ledger, effects[i]));
        if let Effect::SetRef { name, target, .. } = effects[i] {
            let r = Ref { name, target };
            let k = choose|k: int| 0 <= k < ledger.initial.len() && ledger.initial[k] == r;
            assert(holds(first, ledger.initial[k]));
        }
    }
}

/// What holds of a run that is not dry: no tree is lost, and the duplicate that it leaves is kept.
spec fn guards(world: World, first: Refs, refs: Refs, run: Run) -> bool {
    &&& is_safe(world, first, refs)
    &&& leaving(run.stage) matches Some(commit) ==> refs.contains_key(keep_ref(commit))
}

proof fn lemma_guards_step(world: World, first: Refs, refs: Refs, run: Run, reply: Reply)
    requires
        world.wf(),
        keeps_reach(world, first),
        !run.ledger.options.dry_run,
        grounded(world, first, refs, run),
        grounded(world, first, perform(refs, run.advance(reply).1), run.advance(reply).0),
        stage_ok(run.stage),
        stage_carries(world, run.stage),
        guards(world, first, refs, run),
        world.tells(refs, run.request(), reply),
        forall|i: int|
            0 <= i < run.advance(reply).1.len() ==> permitted(
                run.advance(reply).0.ledger,
                #[trigger] run.advance(reply).1[i],
            ),
    ensures
        guards(world, first, perform(refs, run.advance(reply).1), run.advance(reply).0),
{
    let step = run.advance(reply);
    let next = perform(refs, step.1);
    let moves = run.stage matches Stage::Copy { rest, .. } && rest.len() == 0 && (reply matches
        Reply::Commit(Ok(_)));
    if moves {
        if let (Stage::Copy { sweep, parent, current, rest }, Reply::Commit(Ok(copy))) = (
            run.stage,
            reply,
        ) {
            let noted = Ledger {
                rewrites: run.ledger.rewrites.insert(current, copy),
                ..run.ledger
            };
            let moved = Effect::SetRef {
                name: sweep.head.name,
                target: copy,
                message: "rebase_branch_onto"@,
            };
            assert(step == noted.relocated(sweep, seq![moved]));
            lemma_after_move(noted, sweep, moved);
            let tail = step.1.drop_first();
            assert(step.1 =~= seq![moved] + tail);
            lemma_perform_add(refs, seq![moved], tail);
            lemma_perform_one(refs, moved);
            assert(rest =~= Seq::<Oid>::empty());
            lemma_copy_carries(world, sweep, parent, current, rest, copy);
            let all = seq![sweep.head] + sweep.rest;
            assert(holds(refs, all[0]));
            lemma_moved(world, first, refs, sweep, copy);
            assert forall|i: int| 0 <= i < tail.len() implies permitted(
                step.0.ledger,
                #[trigger] tail[i],
            ) by {
                assert(tail[i] == step.1[i + 1]);
            }
            lemma_permitted(world, first, step.0.ledger, tail);
            let between = refs.insert(sweep.head.name, copy);
            lemma_all_harmless(world, first, between, tail);
            if let Some(commit) = leaving(step.0.stage) {
                lemma_step(run, reply, commit);
                lemma_made_keep(run, reply, commit);
                own_branches_are_recognized(commit);
                assert(between.contains_key(keep_ref(commit)));
            }
        }
    } else {
        lemma_calm(run, reply);
        lemma_permitted(world, first, step.0.ledger, step.1);
        lemma_all_harmless(world, first, refs, step.1);
        if let Some(commit) = leaving(step.0.stage) {
            lemma_step(run, reply, commit);
            lemma_made_keep(run, reply, commit);
            own_branches_are_recognized(commit);
            if leaving(run.stage) == Some(commit) {
                assert(refs.contains_key(keep_ref(commit)));
            } else if run.stage is KeepRef {
                assert(refs.contains_key(keep_ref(commit)));
            } else {
                let made = Effect::CreateBranch { name: keep_branch(commit), target: commit };
                assert(step.1 =~= seq![made]);
                lemma_perform_one(refs, made);
                lemma_own_refs(commit);
            }
        }
    }
}

/// The branch that keeps a commit is made in one step.
proof fn lemma_made_keep(run: Run, reply: Reply, commit: Oid)
    requires
        !run.ledger.options.dry_run,
        leaving(run.advance(reply).0.stage) == Some(commit),
        leaving(run.stage) == Some(commit) || keeps(run, reply, commit),
    ensures
        ({
            ||| leaving(run.stage) == Some(commit)
            ||| run.stage matches Stage::KeepRef(scan) && scan.current.commit == commit && (
            reply matches Reply::Found(Ok(_)))
            ||| run.stage is KeepCommit && run.advance(reply).1 == seq![
                Effect::CreateBranch { name: keep_branch(commit), target: commit },
            ]
        }),
{
    lemma_step(run, reply, commit);
}

/// No tree is lost: at every moment, for each commit that a branch reached when the run began, a
/// branch reaches one with its tree, and it is that branch or one under `gto-keep/`. That is of
/// branches that are not under `gto/`, and of repositories in which the branches under `gto-keep/`
/// that are named by the digits of commits reach these when the run begins.
pub proof fn no_tree_is_lost(
    world: World,
    first: Refs,
    options: Options,
    root: Oid,
    replies: Seq<Reply>,
    name: Text,
    commit: Oid,
)
    requires
        world.wf(),
        world.is_honest(first, start(options, root), replies),
        forall|c: Oid|
            first.contains_key("refs/heads/gto-keep/"@ + #[trigger] hex(c.bytes@)) ==> (
            world.reach)(first["refs/heads/gto-keep/"@ + hex(c.bytes@)]).contains(c),
        first.contains_key(name),
        "refs/heads/"@.is_prefix_of(name),
        !"refs/heads/gto/"@.is_prefix_of(name),
        (world.reach)(first[name]).contains(commit),
    ensures
        ({
            let refs = course(first, start(options, root), replies).0;
            exists|other: Text, copy: Oid|
                #![trigger refs.contains_key(other), world.reaches(refs[other], copy)]
                {
                    &&& refs.contains_key(other)
                    &&& other == name || "refs/heads/gto-keep/"@.is_prefix_of(other)
                    &&& (world.reach)(refs[other]).contains(copy)
                    &&& (world.tree)(copy) == (world.tree)(commit)
                }
        }),
{
    let refs = course(first, start(options, root), replies).0;
    names_are_told_by_how_they_begin(name, commit);
    assert(world.reaches(first[name], commit));
    if options.dry_run {
        dry_runs_leave_references_alone(world, first, options, root, replies);
        assert(refs.contains_key(name) && world.reaches(refs[name], commit));
    } else {
        assert forall|c: Oid| #[trigger] first.contains_key(keep_ref(c)) implies world.reaches(
            first[keep_ref(c)],
            c,
        ) by {
            names_are_told_by_how_they_begin(name, c);
            assert(first.contains_key("refs/heads/gto-keep/"@ + hex(c.bytes@)));
        }
        lemma_guards(world, first, options, root, replies);
        assert(survives(world, refs, name, commit));
        let (n, y) = choose|n: Text, y: Oid|
            #![trigger refs.contains_key(n), world.reaches(refs[n], y)]
            refs.contains_key(n) && (n == name || is_keep(n)) && world.reaches(refs[n], y) && (
            world.tree)(y) == (world.tree)(commit);
        names_are_told_by_how_they_begin(n, commit);
        assert(refs.contains_key(n) && world.reaches(refs[n], y));
    }
}

proof fn lemma_guards(world: World, first: Refs, options: Options, root: Oid, replies: Seq<Reply>)
    requires
        world.wf(),
        !options.dry_run,
        keeps_reach(world, first),
        world.is_honest(first, start(options, root), replies),
    ensures
        ({
            let (refs, run) = course(first, start(options, root), replies);
            guards(world, first, refs, run)
        }),
    decreases replies.len(),
{
    let begun = start(options, root);
    if replies.len() == 0 {
        assert forall|name: Text, x: Oid|
            #![trigger first.contains_key(name), world.reaches(first[name], x)]
            first.contains_key(name) && is_head(name) && !is_temporary(name) && world.reaches(
                first[name],
                x,
            ) implies survives(world, first, name, x) by {
            assert(first.contains_key(name) && world.reaches(first[name], x));
        }
    } else {
        let front = replies.drop_last();
        let reply = replies.last();
        lemma_guards(world, first, options, root, front);
        lemma_grounded(world, first, options, root, front);
        lemma_grounded(world, first, options, root, replies);
        lemma_carried(world, first, options, root, front);
        lemma_course(first, begun, front);
        lemma_course(first, begun, replies);
        runs_are_sound(options, root, front);
        effects_are_permitted(options, root, replies);
        let (refs, run) = course(first, begun, front);
        let step = run.advance(reply);
        let before = replay(begun, front).1;
        assert forall|i: int| 0 <= i < step.1.len() implies permitted(
            step.0.ledger,
            #[trigger] step.1[i],
        ) by {
            let all = replay(begun, replies).1;
            assert(all[before.len() + i] == step.1[i]);
            assert(permitted(replay(begun, replies).0.ledger, all[before.len() + i]));
        }
        lemma_guards_step(world, first, refs, run, reply);
    }
}

} // verus!
