//! The temporary branches of a round.
use vstd::prelude::*;
use crate::canonical::{ids, lemma_distinct, CommitInfo};
use crate::laws::canon::lemma_in_play;
use crate::laws::converging::{
    covers, is_alike, is_in_round, lemma_covers, lemma_own_branch, lemma_tracks, queue, tracks,
};
use crate::laws::naming::{names_are_told_by_how_they_begin, own_branches_are_recognized};
use crate::laws::planning::{is_manned, is_shared, lemma_shared_found};
use crate::laws::preserving::{grounded, infos_ok, lemma_grounded};
use crate::laws::rounds::{lemma_tag, lemma_tags_close};
use crate::laws::soundness::is_moving;
use crate::laws::world::{
    apply, course, holds, is_walked, lemma_listed, lemma_own_refs, lemma_perform_one,
    lemma_perform_push, perform, Refs, World,
};
use crate::messages::{branching, branching_plan, fixpoint, nothing_to_do};
use crate::model::{
    listed, start, Effect, Goal, Ledger, Options, Pass, Reply, Run, Scan, Stage, Survey, Sweep,
};
use crate::oid::{hex, Oid};
use crate::refs::{
    has_head, is_head, is_tag, is_unbranched, keep_branch, local_refs, movable, temporary_branch,
    temporary_ref, unbranched, Ref,
};
use crate::text::{trimmed, Text};
use crate::walk::{candidates, with_root, Candidate};

verus! {

/// A branch stands at the commit, or the temporary branch for it is there.
spec fn has_branch(refs: Refs, c: Oid) -> bool {
    is_manned(refs, c) || refs.contains_key(temporary_ref(c))
}

/// The commits that share their trees have branches, but for those that are left.
spec fn all_have(world: World, refs: Refs, left: Seq<Oid>) -> bool {
    forall|c: Oid| #[trigger]
        is_shared(world, refs, c) ==> has_branch(refs, c) || left.contains(c)
}

/// What holds of a round until it moves a branch.
spec fn mans(world: World, refs: Refs, run: Run) -> bool {
    is_in_round(run.stage) && !run.ledger.changed ==> match run.stage {
        Stage::Heads { shared } => all_have(world, refs, shared),
        Stage::Branch { current, rest } => all_have(world, refs, seq![current] + rest),
        _ => all_have(world, refs, Seq::empty()),
    }
}

/// What is done in a pass changes no reference, and goes on in the pass.
spec fn is_quiet(ledger: Ledger, effects: Seq<Effect>, step: (Run, Seq<Effect>)) -> bool {
    is_in_round(step.0.stage) ==> {
        &&& step.1 == effects
        &&& step.0.ledger == ledger
        &&& step.0.stage !is Heads && step.0.stage !is Branch
    }
}

proof fn lemma_scan(ledger: Ledger, pass: Pass, pairs: Seq<Candidate>, effects: Seq<Effect>)
    ensures
        is_quiet(ledger, effects, ledger.scan(pass, pairs, effects)),
{
    lemma_tags_close(ledger, effects.push(Effect::Print(fixpoint(ledger.round))));
}

proof fn lemma_sweep(ledger: Ledger, scan: Scan, heads: Seq<Ref>, effects: Seq<Effect>)
    ensures
        is_quiet(ledger, effects, ledger.sweep(scan, heads, effects)),
{
    lemma_scan(ledger, scan.pass, scan.rest, effects);
}

proof fn lemma_relocated(ledger: Ledger, sweep: Sweep, effects: Seq<Effect>)
    ensures
        is_in_round(ledger.relocated(sweep, effects).0.stage) ==> ledger.relocated(
            sweep,
            effects,
        ).0.ledger.changed,
{
    let scan = Scan { pass: Pass { changed: true, ..sweep.scan.pass }, ..sweep.scan };
    lemma_sweep(Ledger { changed: true, ..ledger }, scan, sweep.rest, effects);
}

proof fn lemma_survey(
    world: World,
    refs: Refs,
    ledger: Ledger,
    survey: Survey,
    done: Seq<CommitInfo>,
    commits: Seq<Oid>,
)
    requires
        infos_ok(world, done),
        survey is Round ==> covers(world, refs, ids(done) + commits),
    ensures
        ({
            let step = ledger.survey(survey, done, commits);
            mans(world, perform(refs, step.1), step.0)
        }),
{
    if commits.len() == 0 && survey is Round {
        assert(ids(done) + commits =~= ids(done));
        lemma_shared_found(world, refs, done);
    }
}

proof fn lemma_learned(
    world: World,
    refs: Refs,
    ledger: Ledger,
    survey: Survey,
    done: Seq<CommitInfo>,
    info: CommitInfo,
    rest: Seq<Oid>,
)
    requires
        infos_ok(world, done.push(info)),
        survey is Round ==> covers(world, refs, ids(done) + (seq![info.oid] + rest)),
    ensures
        ({
            let step = ledger.survey(survey, done.push(info), rest);
            mans(world, perform(refs, step.1), step.0)
        }),
{
    assert(ids(done.push(info)) + rest =~= ids(done) + (seq![info.oid] + rest));
    lemma_survey(world, refs, ledger, survey, done.push(info), rest);
}

proof fn lemma_walked(world: World, refs: Refs, ledger: Ledger, goal: Goal, commits: Seq<Oid>)
    requires
        covers(world, refs, commits),
        goal is Pass && !ledger.changed ==> all_have(world, refs, Seq::empty()),
    ensures
        ({
            let step = ledger.walked(goal, commits);
            mans(world, perform(refs, step.1), step.0)
        }),
{
    match goal {
        Goal::Initial => {
            lemma_survey(world, refs, ledger, Survey::Initial, Seq::empty(), commits);
        },
        Goal::Round => {
            lemma_tags_close(ledger, seq![Effect::Print(nothing_to_do())]);
        },
        Goal::Canonicals => {
            assert(ids(Seq::<CommitInfo>::empty()) + commits =~= commits);
            lemma_survey(world, refs, ledger, Survey::Round, Seq::empty(), commits);
        },
        Goal::Pass(pass) => {
            let pairs = candidates(commits, ledger.canonicals, ledger.root);
            lemma_scan(ledger, pass, pairs, Seq::empty());
        },
    }
}

proof fn lemma_survey_step(world: World, first: Refs, refs: Refs, run: Run, reply: Reply)
    requires
        world.wf(),
        run.ledger.root == world.root,
        grounded(world, first, refs, run),
        tracks(world, refs, run),
        mans(world, refs, run),
        world.tells(refs, run.request(), reply),
        run.stage is WalkNames || run.stage is Walk || run.stage is Info || run.stage is Depth,
    ensures
        mans(world, perform(refs, run.advance(reply).1), run.advance(reply).0),
{
    let ledger = run.ledger;
    match (run.stage, reply) {
        (Stage::WalkNames(goal), Reply::Refs(Ok(records))) => {
            lemma_listed(refs, records);
            let found = local_refs(records)->Ok_0;
            if found.len() == 0 {
                assert forall|c: Oid| world.is_in_walk(refs, c) implies false by {
                    let n = choose|n: Text| #[trigger]
                        refs.contains_key(n) && is_walked(n) && (is_head(n) || is_tag(n))
                            && world.reaches(refs[n], c);
                    assert(holds(refs, Ref { name: n, target: refs[n] }));
                    assert(found.contains(Ref { name: n, target: refs[n] }));
                }
                lemma_walked(world, refs, ledger, goal, Seq::empty());
            }
        },
        (Stage::Walk { goal, names }, Reply::Commits(Ok(commits))) => {
            lemma_covers(world, refs, names, commits);
            lemma_walked(world, refs, ledger, goal, with_root(commits, ledger.root));
        },
        (Stage::Info { survey, done, current, rest }, Reply::TreeAndDate(Ok((tree, date)))) => {
            if current == ledger.root {
                assert(world.range(world.root, world.root) =~= Set::empty());
                let info = CommitInfo { tree_id: tree, depth: 0, cdate: date, oid: current };
                lemma_learned(world, refs, ledger, survey, done, info, rest);
            } else if ledger.depths.contains_key(current) {
                let info = CommitInfo {
                    tree_id: tree,
                    depth: ledger.depths[current],
                    cdate: date,
                    oid: current,
                };
                lemma_learned(world, refs, ledger, survey, done, info, rest);
            }
        },
        (Stage::Depth { survey, done, current, rest, tree, date }, Reply::Count(Ok(depth))) => {
            let info = CommitInfo { tree_id: tree, depth, cdate: date, oid: current };
            let next = Ledger { depths: ledger.depths.insert(current, depth), ..ledger };
            lemma_learned(world, refs, next, survey, done, info, rest);
        },
        _ => {},
    }
}

/// A new branch takes none away.
proof fn lemma_made(world: World, refs: Refs, name: Text, target: Oid, left: Seq<Oid>)
    requires
        is_alike(world, refs, apply(refs, Effect::CreateBranch { name, target })),
        all_have(world, refs, left),
    ensures
        all_have(world, apply(refs, Effect::CreateBranch { name, target }), left),
{
    let next = apply(refs, Effect::CreateBranch { name, target });
    assert forall|c: Oid| #[trigger] is_shared(world, next, c) implies has_branch(next, c)
        || left.contains(c) by {
        assert(world.is_in_walk(next, c) <==> world.is_in_walk(refs, c));
        let d = choose|d: Oid| #[trigger]
            world.is_in_scope(next, d) && d != c && (world.tree)(d) == (world.tree)(c);
        assert(world.is_in_walk(next, d) <==> world.is_in_walk(refs, d));
        assert(world.is_in_scope(refs, d));
        assert(is_shared(world, refs, c));
        if is_manned(refs, c) {
            let n = choose|n: Text| #[trigger]
                refs.contains_key(n) && is_head(n) && refs[n] == c;
            assert(next.contains_key(n) && next[n] == refs[n]);
        }
    }
}

proof fn lemma_branch(world: World, refs: Refs, ledger: Ledger, missing: Seq<Oid>, effects: Seq<Effect>)
    requires
        !ledger.options.dry_run,
        !ledger.changed ==> all_have(world, perform(refs, effects), missing),
    ensures
        ({
            let step = ledger.branch(missing, effects);
            mans(world, perform(refs, step.1), step.0)
        }),
{
    if missing.len() > 0 {
        lemma_perform_push(refs, effects, Effect::Print(branching(missing[0])));
        assert(seq![missing[0]] + missing.drop_first() =~= missing);
    } else {
        assert(missing =~= Seq::<Oid>::empty());
    }
}

proof fn lemma_branch_step(world: World, refs: Refs, run: Run, reply: Reply)
    requires
        world.wf(),
        !run.ledger.options.dry_run,
        run.ledger.root == world.root,
        tracks(world, refs, run),
        mans(world, refs, run),
        world.tells(refs, run.request(), reply),
        run.stage is Heads || run.stage is Branch,
    ensures
        mans(world, perform(refs, run.advance(reply).1), run.advance(reply).0),
{
    let ledger = run.ledger;
    match (run.stage, reply) {
        (Stage::Heads { shared }, Reply::Refs(Ok(records))) => {
            lemma_listed(refs, records);
            let found = local_refs(records)->Ok_0;
            let missing = unbranched(shared, found, ledger.root);
            let wanted = is_unbranched(found, ledger.root);
            lemma_distinct(shared.filter(wanted));
            if !ledger.changed {
                assert forall|c: Oid| #[trigger] is_shared(world, refs, c) implies has_branch(
                    refs,
                    c,
                ) || missing.contains(c) by {
                    if has_head(found, c) {
                        let i = choose|i: int|
                            0 <= i < found.len() && is_head((#[trigger] found[i]).name)
                                && found[i].target == c;
                        assert(found.contains(found[i]));
                        assert(refs.contains_key(found[i].name));
                    } else if shared.contains(c) {
                        let k = choose|k: int| 0 <= k < shared.len() && shared[k] == c;
                        shared.lemma_filter_contains(wanted, k);
                    }
                }
            }
            lemma_branch(world, refs, ledger, missing, Seq::empty());
        },
        (Stage::Branch { current, rest }, Reply::Found(Ok(_))) => {
            let made = Effect::CreateBranch { name: temporary_branch(current), target: current };
            let next = apply(refs, made);
            lemma_perform_one(refs, made);
            lemma_own_refs(current);
            own_branches_are_recognized(current);
            if !ledger.changed {
                let left = seq![current] + rest;
                lemma_own_branch(world, refs, temporary_branch(current), current);
                lemma_made(world, refs, temporary_branch(current), current, left);
                assert forall|c: Oid| #[trigger] is_shared(world, next, c) implies has_branch(
                    next,
                    c,
                ) || rest.contains(c) by {
                    if !has_branch(next, c) {
                        let i = choose|i: int| 0 <= i < left.len() && left[i] == c;
                        if i > 0 {
                            assert(rest[i - 1] == c);
                        } else {
                            assert(next.contains_key(temporary_ref(c)));
                        }
                    }
                }
            }
            lemma_branch(
                world,
                refs,
                Ledger {
                    added: true,
                    plan: ledger.plan.push(branching_plan(current)),
                    ..ledger
                },
                rest,
                seq![made],
            );
        },
        _ => {},
    }
}

proof fn lemma_pass_step(world: World, refs: Refs, run: Run, reply: Reply)
    requires
        world.wf(),
        !run.ledger.options.dry_run,
        tracks(world, refs, run),
        mans(world, refs, run),
        run.stage is Candidate || run.stage is KeepRef || run.stage is KeepCommit || run.stage
            is Branches || run.stage is Descends,
    ensures
        mans(world, perform(refs, run.advance(reply).1), run.advance(reply).0),
{
    let ledger = run.ledger;
    match (run.stage, reply) {
        (Stage::Candidate(scan), Reply::Answer(_)) => {
            lemma_scan(ledger, scan.pass, scan.rest, Seq::empty());
        },
        (Stage::KeepCommit(scan), Reply::Found(Ok(_))) => {
            let c = scan.current.commit;
            let made = Effect::CreateBranch { name: keep_branch(c), target: c };
            lemma_perform_one(refs, made);
            lemma_own_refs(c);
            own_branches_are_recognized(c);
            if !ledger.changed {
                assert(queue(scan)[0] == scan.current);
                lemma_own_branch(world, refs, keep_branch(c), c);
                lemma_made(world, refs, keep_branch(c), c, Seq::empty());
            }
        },
        (Stage::Branches(scan), Reply::Refs(found)) => {
            if let Ok(found) = listed(found) {
                lemma_sweep(ledger, scan, movable(found, scan.current.commit), Seq::empty());
            }
        },
        (Stage::Descends(sweep), Reply::Answer(_)) => {
            lemma_sweep(ledger, sweep.scan, sweep.rest, Seq::empty());
        },
        _ => {},
    }
}

proof fn lemma_move_step(world: World, refs: Refs, run: Run, reply: Reply)
    requires
        is_moving(run.stage),
    ensures
        mans(world, refs, run.advance(reply).0),
{
    let ledger = run.ledger;
    match (run.stage, reply) {
        (Stage::Tip(sweep), Reply::Commit(_)) => {
            lemma_relocated(ledger, sweep, Seq::empty());
        },
        (Stage::Line { sweep, .. }, Reply::Commits(_)) => {
            lemma_relocated(ledger, sweep, Seq::empty());
        },
        (Stage::Signature { sweep, commits }, Reply::Found(_)) => {
            let moved = Effect::SetRef {
                name: sweep.head.name,
                target: sweep.scan.current.canonical,
                message: "rebase_branch_onto"@,
            };
            lemma_relocated(ledger, sweep, Seq::empty());
            lemma_relocated(ledger, sweep, seq![moved]);
        },
        (Stage::Copy { sweep, current, rest, .. }, Reply::Commit(written)) => {
            lemma_relocated(ledger, sweep, Seq::empty());
            if let Ok(copy) = written {
                let noted = Ledger { rewrites: ledger.rewrites.insert(current, copy), ..ledger };
                let moved = Effect::SetRef {
                    name: sweep.head.name,
                    target: copy,
                    message: "rebase_branch_onto"@,
                };
                lemma_relocated(noted, sweep, seq![moved]);
            }
        },
        _ => {},
    }
}

proof fn lemma_other_step(world: World, refs: Refs, run: Run, reply: Reply)
    requires
        !is_in_round(run.stage),
        !is_moving(run.stage),
        !(run.stage is WalkNames || run.stage is Walk || run.stage is Info || run.stage is Depth),
    ensures
        mans(world, refs, run.advance(reply).0),
{
    if let (Stage::Tag { tag, target, rest }, Reply::Found(Ok(_))) = (run.stage, reply) {
        let moved = Effect::SetTag {
            name: trimmed(tag.name, "refs/tags/"@),
            target,
        };
        lemma_tag(run.ledger, rest, seq![moved]);
    }
}

proof fn lemma_mans(world: World, first: Refs, options: Options, root: Oid, replies: Seq<Reply>)
    requires
        world.wf(),
        !options.dry_run,
        world.is_honest(first, start(options, root), replies),
    ensures
        ({
            let (refs, run) = course(first, start(options, root), replies);
            mans(world, refs, run)
        }),
    decreases replies.len(),
{
    if replies.len() > 0 {
        let front = replies.drop_last();
        let reply = replies.last();
        lemma_mans(world, first, options, root, front);
        lemma_tracks(world, first, options, root, front);
        lemma_grounded(world, first, options, root, front);
        let (refs, run) = course(first, start(options, root), front);
        let next = perform(refs, run.advance(reply).1);
        if run.stage is WalkNames || run.stage is Walk || run.stage is Info || run.stage is Depth {
            lemma_survey_step(world, first, refs, run, reply);
        } else if run.stage is Heads || run.stage is Branch {
            lemma_branch_step(world, refs, run, reply);
        } else if is_moving(run.stage) {
            lemma_move_step(world, next, run, reply);
        } else if is_in_round(run.stage) {
            lemma_pass_step(world, refs, run, reply);
        } else {
            lemma_other_step(world, next, run, reply);
        }
    }
}

/// When the passes of a round look at duplicates, and have not moved a branch yet, there is a branch
/// at each commit that shares its tree with another, unless it is the root: if no other, then the
/// one that the round has made under `gto/`, by the digits of the commit.
pub proof fn shared_commits_have_branches(
    world: World,
    first: Refs,
    options: Options,
    root: Oid,
    replies: Seq<Reply>,
    commit: Oid,
    other: Oid,
)
    requires
        world.wf(),
        !options.dry_run,
        world.is_honest(first, start(options, root), replies),
        ({
            let (refs, run) = course(first, start(options, root), replies);
            &&& run.stage is Candidate && !run.ledger.changed
            &&& world.is_in_play(refs, commit)
            &&& world.is_in_play(refs, other)
        }),
        commit != other,
        commit != world.root,
        (world.tree)(commit) == (world.tree)(other),
    ensures
        ({
            let refs = course(first, start(options, root), replies).0;
            ||| refs.contains_key("refs/heads/gto/"@ + hex(commit.bytes@))
            ||| exists|name: Text| #[trigger]
                refs.contains_key(name) && "refs/heads/"@.is_prefix_of(name) && refs[name] == commit
        }),
{
    let refs = course(first, start(options, root), replies).0;
    lemma_mans(world, first, options, root, replies);
    lemma_in_play(world, refs, commit);
    lemma_in_play(world, refs, other);
    assert(world.is_in_scope(refs, other));
    assert(is_shared(world, refs, commit));
    names_are_told_by_how_they_begin(Seq::empty(), commit);
    assert(has_branch(refs, commit)) by {
        assert(!Seq::<Oid>::empty().contains(commit));
    }
    if is_manned(refs, commit) {
        let name = choose|name: Text| #[trigger]
            refs.contains_key(name) && is_head(name) && refs[name] == commit;
        names_are_told_by_how_they_begin(name, commit);
    }
}

} // verus!
