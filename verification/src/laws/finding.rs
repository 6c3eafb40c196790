//! What a run finds before it changes anything.
use vstd::prelude::*;
use crate::canonical::{
    canonicals, duplicates, every_commit_has_a_canonical, ids, lemma_known, CommitInfo,
};
use crate::laws::canon::{lemma_canonicals, lemma_in_play, one_commit_stands_for_another};
use crate::laws::converging::{covers, lemma_covers, lemma_walk_names};
use crate::laws::naming::names_are_told_by_how_they_begin;
use crate::laws::preserving::{
    giving_up_leaves_references_as_found, grounded, infos_ok, lemma_grounded,
};
use crate::laws::sifting::lemma_leading;
use crate::laws::soundness::{is_initial, is_preflight, runs_are_sound};
use crate::laws::world::{
    course, holds, is_walked, lemma_course, lemma_listed, lemma_perform_one, perform, Refs, World,
};
use crate::messages::{fixpoint, moving, moving_plan, moving_tags, nothing_to_do, optimizing};
use crate::model::{
    leading, listed, start, Effect, Goal, Ledger, Options, Outcome, Pass, Reply, Request, Run, Scan,
    Stage, Survey, Sweep,
};
use crate::oid::{hex, Oid};
use crate::refs::{is_head, is_tag, local_refs, movable, tags_of, Failure, Ref};
use crate::text::{trimmed, Text};
use crate::walk::{candidates, with_root, Candidate};
use crate::laws::replay::replay;

verus! {

/// The two go by the same findings.
pub(crate) open spec fn same_notes(a: Ledger, b: Ledger) -> bool {
    &&& a.options == b.options
    &&& a.root == b.root
    &&& a.initial == b.initial
    &&& a.duplicates == b.duplicates
    &&& a.rewrites == b.rewrites
}

/// The run has looked at the commits as it found them.
pub(crate) open spec fn is_later(stage: Stage) -> bool {
    !is_preflight(stage) && !is_initial(stage)
}

pub(crate) proof fn lemma_tag_notes(ledger: Ledger, tags: Seq<Ref>, effects: Seq<Effect>)
    ensures
        same_notes(ledger, ledger.tag(tags, effects).0.ledger),
        is_later(ledger.tag(tags, effects).0.stage),
    decreases tags.len(),
{
    if tags.len() > 0 {
        lemma_tag_notes(ledger, tags.drop_first(), effects);
    }
}

proof fn lemma_tags_notes(ledger: Ledger, effects: Seq<Effect>)
    ensures
        same_notes(ledger, ledger.tags(effects).0.ledger),
        is_later(ledger.tags(effects).0.stage),
{
    lemma_tag_notes(ledger, tags_of(ledger.initial), effects.push(Effect::Print(moving_tags())));
}

proof fn lemma_scan_notes(
    ledger: Ledger,
    pass: Pass,
    pairs: Seq<Candidate>,
    effects: Seq<Effect>,
)
    ensures
        same_notes(ledger, ledger.scan(pass, pairs, effects).0.ledger),
        is_later(ledger.scan(pass, pairs, effects).0.stage),
{
    lemma_tags_notes(ledger, effects.push(Effect::Print(fixpoint(ledger.round))));
}

proof fn lemma_sweep_notes(ledger: Ledger, scan: Scan, heads: Seq<Ref>, effects: Seq<Effect>)
    ensures
        same_notes(ledger, ledger.sweep(scan, heads, effects).0.ledger),
        is_later(ledger.sweep(scan, heads, effects).0.stage),
{
    lemma_scan_notes(ledger, scan.pass, scan.rest, effects);
}

proof fn lemma_relocated_notes(ledger: Ledger, sweep: Sweep, effects: Seq<Effect>)
    ensures
        same_notes(ledger, ledger.relocated(sweep, effects).0.ledger),
        is_later(ledger.relocated(sweep, effects).0.stage),
{
    let scan = Scan { pass: Pass { changed: true, ..sweep.scan.pass }, ..sweep.scan };
    lemma_sweep_notes(Ledger { changed: true, ..ledger }, scan, sweep.rest, effects);
}

proof fn lemma_relocate_notes(ledger: Ledger, sweep: Sweep)
    ensures
        same_notes(ledger, ledger.relocate(sweep).0.ledger),
        is_later(ledger.relocate(sweep).0.stage),
{
    let pass = sweep.scan.pass;
    let spot = sweep.scan.current;
    let planned = Ledger {
        plan: ledger.plan.push(
            moving_plan(pass.pattern, sweep.head.name, spot.canonical, spot.commit),
        ),
        ..ledger
    };
    let said = Effect::Print(
        moving(pass.pattern, ledger.round, pass.number, sweep.head.name, spot.canonical),
    );
    lemma_sweep_notes(planned, sweep.scan, sweep.rest, seq![said]);
}

proof fn lemma_copy_notes(ledger: Ledger, sweep: Sweep, parent: Oid, commits: Seq<Oid>)
    ensures
        same_notes(ledger, ledger.copy(sweep, parent, commits).0.ledger),
        is_later(ledger.copy(sweep, parent, commits).0.stage),
{
    let moved = Effect::SetRef {
        name: sweep.head.name,
        target: parent,
        message: "rebase_branch_onto"@,
    };
    lemma_relocated_notes(ledger, sweep, seq![moved]);
}

proof fn lemma_walked_notes(ledger: Ledger, goal: Goal, commits: Seq<Oid>)
    ensures
        ({
            let now = ledger.walked(goal, commits).0.ledger;
            &&& goal !is Initial ==> same_notes(ledger, now) && is_later(
                ledger.walked(goal, commits).0.stage,
            )
            &&& same_notes(ledger, Ledger { duplicates: ledger.duplicates, ..now })
        }),
{
    match goal {
        Goal::Round => {
            lemma_tags_notes(ledger, seq![Effect::Print(nothing_to_do())]);
        },
        Goal::Pass(pass) => {
            lemma_scan_notes(
                ledger,
                pass,
                candidates(commits, ledger.canonicals, ledger.root),
                Seq::empty(),
            );
        },
        _ => {},
    }
}

/// The map with what the reply to the request adds to it: a commit that was to be copied leads to its
/// copy.
pub open spec fn with_copy(copies: Map<Oid, Oid>, request: Request, reply: Reply) -> Map<Oid, Oid> {
    match (request, reply) {
        (Request::CopyCommit { source, .. }, Reply::Commit(Ok(copy))) => copies.insert(
            source,
            copy,
        ),
        _ => copies,
    }
}

/// What a step makes of the findings of a run: the copies are noted, and no more.
pub(crate) proof fn lemma_notes(run: Run, reply: Reply)
    requires
        !is_preflight(run.stage),
    ensures
        ({
            let (ledger, now) = (run.ledger, run.advance(reply).0.ledger);
            &&& now.options == ledger.options
            &&& now.root == ledger.root
            &&& now.initial == ledger.initial
            &&& now.rewrites == with_copy(ledger.rewrites, run.request(), reply)
            &&& !is_initial(run.stage) ==> now.duplicates == ledger.duplicates && is_later(
                run.advance(reply).0.stage,
            )
        }),
{
    let ledger = run.ledger;
    match (run.stage, reply) {
        (Stage::WalkNames(goal), Reply::Refs(_)) => {
            lemma_walked_notes(ledger, goal, Seq::empty());
        },
        (Stage::Walk { goal, .. }, Reply::Commits(Ok(commits))) => {
            lemma_walked_notes(ledger, goal, with_root(commits, ledger.root));
        },
        (Stage::Candidate(scan), Reply::Answer(_)) => {
            lemma_scan_notes(ledger, scan.pass, scan.rest, Seq::empty());
        },
        (Stage::Branches(scan), Reply::Refs(refs)) => {
            if let Ok(refs) = listed(refs) {
                lemma_sweep_notes(ledger, scan, movable(refs, scan.current.commit), Seq::empty());
            }
        },
        (Stage::Descends(sweep), Reply::Answer(_)) => {
            lemma_relocate_notes(ledger, sweep);
            lemma_sweep_notes(ledger, sweep.scan, sweep.rest, Seq::empty());
        },
        (Stage::Tip(sweep), Reply::Commit(_)) => {
            lemma_relocated_notes(ledger, sweep, Seq::empty());
        },
        (Stage::Line { sweep, .. }, Reply::Commits(_)) => {
            lemma_relocated_notes(ledger, sweep, Seq::empty());
        },
        (Stage::Signature { sweep, commits }, Reply::Found(_)) => {
            lemma_relocated_notes(ledger, sweep, Seq::empty());
            lemma_copy_notes(ledger, sweep, sweep.scan.current.canonical, commits);
        },
        (Stage::Copy { sweep, current, rest, .. }, Reply::Commit(written)) => {
            lemma_relocated_notes(ledger, sweep, Seq::empty());
            if let Ok(copy) = written {
                let noted = Ledger { rewrites: ledger.rewrites.insert(current, copy), ..ledger };
                lemma_copy_notes(noted, sweep, copy, rest);
            }
        },
        (Stage::Tag { tag, target, rest }, Reply::Found(Ok(_))) => {
            lemma_tag_notes(
                ledger,
                rest,
                seq![Effect::SetTag { name: trimmed(tag.name, "refs/tags/"@), target }],
            );
        },
        _ => {},
    }
}

/// The reference is a branch or a tag, and at the root or above it.
spec fn is_above(world: World, first: Refs, r: Ref) -> bool {
    holds(first, r) && (is_head(r.name) || is_tag(r.name)) && world.reaches(r.target, world.root)
}

/// The reference is a branch or a tag.
spec fn is_local(first: Refs, r: Ref) -> bool {
    holds(first, r) && (is_head(r.name) || is_tag(r.name))
}

/// The references at the root or above it are among `kept` or `rest`; those in `kept` are such.
spec fn parts(world: World, first: Refs, kept: Seq<Ref>, rest: Seq<Ref>) -> bool {
    &&& forall|r: Ref| #[trigger] kept.contains(r) ==> is_above(world, first, r)
    &&& forall|r: Ref| #[trigger] rest.contains(r) ==> is_local(first, r)
    &&& forall|r: Ref| #[trigger]
        is_above(world, first, r) ==> kept.contains(r) || rest.contains(r)
}

/// The commits for which others stand are noted, with these.
spec fn duplicates_ok(world: World, first: Refs, noted: Map<Oid, Oid>) -> bool {
    &&& forall|c: Oid| #[trigger]
        noted.contains_key(c) ==> world.is_in_play(first, c) && world.stands_for(first, noted[c], c)
            && noted[c] != c
    &&& forall|c: Oid, k: Oid|
        world.is_in_play(first, c) && #[trigger] world.stands_for(first, k, c) && k != c
            ==> noted.contains_key(c) && noted[c] == k
}

/// The checks are over, and passed.
spec fn is_past_checks(stage: Stage) -> bool {
    !is_preflight(stage) && (stage is Finished ==> stage == Stage::Finished(Outcome::Success))
}

/// What holds of the findings of a run.
spec fn charts(world: World, first: Refs, refs: Refs, run: Run) -> bool {
    let (ledger, stage) = (run.ledger, run.stage);
    &&& is_preflight(stage) || is_initial(stage) ==> refs == first
    &&& stage matches Stage::Descent { kept, current, rest } ==> current.target != world.root
        && parts(world, first, kept, seq![current] + rest)
    &&& is_past_checks(stage) ==> ledger.initial.len() > 0 && forall|r: Ref| #[trigger]
        ledger.initial.contains(r) <==> is_above(world, first, r)
    &&& stage matches Stage::Walk { goal: Goal::Initial, names } ==> forall|name: Text| #[trigger]
        names.contains(name) <==> first.contains_key(name) && is_walked(name) && (is_head(name)
            || is_tag(name))
    &&& stage matches Stage::Info { survey: Survey::Initial, done, current, rest } ==> covers(
        world,
        first,
        ids(done) + (seq![current] + rest),
    )
    &&& stage matches Stage::Depth { survey: Survey::Initial, done, current, rest, .. } ==> covers(
        world,
        first,
        ids(done) + (seq![current] + rest),
    )
    &&& is_past_checks(stage) && !is_initial(stage) ==> duplicates_ok(
        world,
        first,
        ledger.duplicates,
    )
}

proof fn lemma_sift(world: World, first: Refs, ledger: Ledger, kept: Seq<Ref>, rest: Seq<Ref>)
    requires
        world.wf(),
        ledger.root == world.root,
        parts(world, first, kept, rest),
    ensures
        ({
            let step = ledger.sift(kept, rest);
            &&& charts(world, first, perform(first, step.1), step.0)
            &&& step.0.stage is Finished ==> step.1 == seq![
                Effect::Warn(
                    "error: no local refs descend from root "@ + ledger.options.root_name + " ("@
                        + hex(world.root.bytes@) + ")"@,
                ),
            ] && forall|r: Ref| !is_above(world, first, r)
            &&& step.0.stage is WalkNames ==> step.1 == seq![
                Effect::Print(
                    "Optimizing sub-tree history above root "@ + ledger.options.root_name + " ("@
                        + hex(world.root.bytes@) + ")..."@,
                ),
            ]
        }),
{
    lemma_leading(rest, ledger.root);
    let n = leading(rest, ledger.root);
    lemma_at_root(rest, ledger.root);
    let more = kept + rest.take(n);
    assert forall|r: Ref| #[trigger] more.contains(r) implies is_above(world, first, r) by {
        let i = choose|i: int| 0 <= i < more.len() && more[i] == r;
        if i < kept.len() {
            assert(kept.contains(r));
        } else {
            assert(rest[i - kept.len()] == r);
            assert(rest.contains(r));
            assert(world.reaches(world.root, world.root));
        }
    }
    assert forall|r: Ref| #[trigger]
        is_above(world, first, r) implies more.contains(r) || rest.skip(n).contains(r) by {
        if kept.contains(r) {
            let i = choose|i: int| 0 <= i < kept.len() && kept[i] == r;
            assert(more[i] == r);
        } else {
            let i = choose|i: int| 0 <= i < rest.len() && rest[i] == r;
            if i < n {
                assert(more[kept.len() + i] == r);
            } else {
                assert(rest.skip(n)[i - n] == r);
            }
        }
    }
    if n < rest.len() {
        let left = seq![rest[n]] + rest.skip(n + 1);
        assert(left =~= rest.skip(n));
        assert forall|r: Ref| #[trigger] left.contains(r) implies is_local(first, r) by {
            let i = choose|i: int| 0 <= i < left.len() && left[i] == r;
            assert(rest[n + i] == r);
            assert(rest.contains(r));
        }
    } else {
        assert(rest.take(n) =~= rest);
        if more.len() > 0 {
            lemma_perform_one(
                first,
                Effect::Print(optimizing(ledger.options.root_name, ledger.root)),
            );
        }
    }
}

proof fn lemma_at_root(refs: Seq<Ref>, root: Oid)
    ensures
        0 <= leading(refs, root) <= refs.len(),
        forall|i: int| 0 <= i < leading(refs, root) ==> (#[trigger] refs[i]).target == root,
        leading(refs, root) < refs.len() ==> refs[leading(refs, root)].target != root,
    decreases refs.len(),
{
    lemma_leading(refs, root);
    if refs.len() > 0 && refs[0].target == root {
        let rest = refs.drop_first();
        lemma_at_root(rest, root);
        assert forall|i: int| 0 <= i < leading(refs, root) implies (#[trigger] refs[i]).target
            == root by {
            if i > 0 {
                assert(rest[i - 1] == refs[i]);
            }
        }
    }
}

proof fn lemma_check_step(world: World, first: Refs, run: Run, reply: Reply)
    requires
        world.wf(),
        grounded(world, first, first, run),
        charts(world, first, first, run),
        world.tells(first, run.request(), reply),
        is_preflight(run.stage),
    ensures
        charts(world, first, perform(first, run.advance(reply).1), run.advance(reply).0),
{
    let ledger = run.ledger;
    match (run.stage, reply) {
        (Stage::AllRefs, Reply::Refs(Ok(records))) => {
            lemma_listed(first, records);
            let found = local_refs(records)->Ok_0;
            lemma_sift(world, first, ledger, Seq::empty(), found);
        },
        (Stage::Descent { kept, current, rest }, Reply::Answer(answer)) => {
            lemma_answered(world, first, kept, current, rest, answer);
            let next = if answer == Ok::<bool, Failure>(true) {
                kept.push(current)
            } else {
                kept
            };
            lemma_sift(world, first, ledger, next, rest);
        },
        _ => {},
    }
}

proof fn lemma_answered(
    world: World,
    first: Refs,
    kept: Seq<Ref>,
    current: Ref,
    rest: Seq<Ref>,
    answer: Result<bool, Failure>,
)
    requires
        world.wf(),
        parts(world, first, kept, seq![current] + rest),
        current.target != world.root,
        (answer == Ok::<bool, Failure>(true)) == world.descends(current.target, world.root),
    ensures
        parts(
            world,
            first,
            if answer == Ok::<bool, Failure>(true) {
                kept.push(current)
            } else {
                kept
            },
            rest,
        ),
{
    let all = seq![current] + rest;
    let next = if answer == Ok::<bool, Failure>(true) {
        kept.push(current)
    } else {
        kept
    };
    assert(all[0] == current);
    assert(all.contains(current));
    assert forall|r: Ref| #[trigger] next.contains(r) implies is_above(world, first, r) by {
        let i = choose|i: int| 0 <= i < next.len() && next[i] == r;
        if i < kept.len() {
            assert(kept[i] == r);
            assert(kept.contains(r));
        }
    }
    assert forall|r: Ref| #[trigger] rest.contains(r) implies is_local(first, r) by {
        let i = choose|i: int| 0 <= i < rest.len() && rest[i] == r;
        assert(all[i + 1] == r);
        assert(all.contains(r));
    }
    assert forall|r: Ref| #[trigger] is_above(world, first, r) implies next.contains(r)
        || rest.contains(r) by {
        if kept.contains(r) {
            let i = choose|i: int| 0 <= i < kept.len() && kept[i] == r;
            assert(next[i] == r);
        } else {
            let i = choose|i: int| 0 <= i < all.len() && all[i] == r;
            if i > 0 {
                assert(rest[i - 1] == r);
            } else {
                assert(next[kept.len() as int] == r);
            }
        }
    }
}

proof fn lemma_surveyed(
    world: World,
    first: Refs,
    ledger: Ledger,
    done: Seq<CommitInfo>,
    commits: Seq<Oid>,
)
    requires
        world.wf(),
        infos_ok(world, done),
        covers(world, first, ids(done) + commits),
        ledger.initial.len() > 0,
        forall|r: Ref| #[trigger] ledger.initial.contains(r) <==> is_above(world, first, r),
    ensures
        ({
            let step = ledger.survey(Survey::Initial, done, commits);
            charts(world, first, perform(first, step.1), step.0)
        }),
{
    if commits.len() > 0 {
        assert(seq![commits[0]] + commits.drop_first() =~= commits);
    } else {
        assert(ids(done) + commits =~= ids(done));
        let chosen = canonicals(done);
        let noted = duplicates(done);
        lemma_known(done);
        assert forall|c: Oid| #[trigger] noted.contains_key(c) implies world.is_in_play(first, c)
            && world.stands_for(first, noted[c], c) && noted[c] != c by {
            assert(ids(done).contains(c));
            every_commit_has_a_canonical(done, c);
            lemma_canonicals(world, first, done, c);
            lemma_in_play(world, first, c);
        }
        assert forall|c: Oid, k: Oid|
            world.is_in_play(first, c) && #[trigger] world.stands_for(first, k, c) && k
                != c implies noted.contains_key(c) && noted[c] == k by {
            lemma_in_play(world, first, c);
            lemma_in_play(world, first, k);
            if !world.is_in_walk(first, c) {
                assert(c == world.root);
                assert(world.is_in_walk(first, k));
            }
            assert(ids(done).contains(c));
            every_commit_has_a_canonical(done, c);
            lemma_canonicals(world, first, done, c);
            one_commit_stands_for_another(world, first, k, chosen[c], c);
        }
    }
}

proof fn lemma_learned(
    world: World,
    first: Refs,
    ledger: Ledger,
    done: Seq<CommitInfo>,
    info: CommitInfo,
    rest: Seq<Oid>,
)
    requires
        world.wf(),
        infos_ok(world, done.push(info)),
        covers(world, first, ids(done) + (seq![info.oid] + rest)),
        ledger.initial.len() > 0,
        forall|r: Ref| #[trigger] ledger.initial.contains(r) <==> is_above(world, first, r),
    ensures
        ({
            let step = ledger.survey(Survey::Initial, done.push(info), rest);
            charts(world, first, perform(first, step.1), step.0)
        }),
{
    assert(ids(done.push(info)) + rest =~= ids(done) + (seq![info.oid] + rest));
    lemma_surveyed(world, first, ledger, done.push(info), rest);
}

proof fn lemma_initial_step(world: World, first: Refs, run: Run, reply: Reply)
    requires
        world.wf(),
        run.ledger.root == world.root,
        grounded(world, first, first, run),
        charts(world, first, first, run),
        world.tells(first, run.request(), reply),
        is_initial(run.stage),
    ensures
        charts(world, first, perform(first, run.advance(reply).1), run.advance(reply).0),
{
    let ledger = run.ledger;
    match (run.stage, reply) {
        (Stage::WalkNames(goal), Reply::Refs(Ok(records))) => {
            lemma_listed(first, records);
            let found = local_refs(records)->Ok_0;
            lemma_walk_names(first, found);
            if found.len() == 0 {
                let r = ledger.initial[0];
                assert(ledger.initial.contains(r));
                assert(found.contains(r));
            }
        },
        (Stage::Walk { goal, names }, Reply::Commits(Ok(commits))) => {
            lemma_covers(world, first, names, commits);
            let all = with_root(commits, ledger.root);
            assert(ids(Seq::<CommitInfo>::empty()) + all =~= all);
            lemma_surveyed(world, first, ledger, Seq::empty(), all);
        },
        (Stage::Info { done, current, rest, .. }, Reply::TreeAndDate(Ok((tree, date)))) => {
            if current == ledger.root {
                assert(world.range(world.root, world.root) =~= Set::empty());
                let info = CommitInfo { tree_id: tree, depth: 0, cdate: date, oid: current };
                lemma_learned(world, first, ledger, done, info, rest);
            } else if ledger.depths.contains_key(current) {
                let info = CommitInfo {
                    tree_id: tree,
                    depth: ledger.depths[current],
                    cdate: date,
                    oid: current,
                };
                lemma_learned(world, first, ledger, done, info, rest);
            }
        },
        (Stage::Depth { done, current, rest, tree, date, .. }, Reply::Count(Ok(depth))) => {
            let info = CommitInfo { tree_id: tree, depth, cdate: date, oid: current };
            let next = Ledger { depths: ledger.depths.insert(current, depth), ..ledger };
            lemma_learned(world, first, next, done, info, rest);
        },
        _ => {},
    }
}

proof fn lemma_charts(
    world: World,
    first: Refs,
    options: Options,
    root: Oid,
    replies: Seq<Reply>,
)
    requires
        world.wf(),
        world.is_honest(first, start(options, root), replies),
    ensures
        ({
            let (refs, run) = course(first, start(options, root), replies);
            charts(world, first, refs, run) && run.ledger.options == options
        }),
    decreases replies.len(),
{
    if replies.len() > 0 {
        let front = replies.drop_last();
        let reply = replies.last();
        lemma_charts(world, first, options, root, front);
        lemma_grounded(world, first, options, root, front);
        let (refs, run) = course(first, start(options, root), front);
        if is_preflight(run.stage) {
            lemma_check_step(world, first, run, reply);
        } else {
            lemma_notes(run, reply);
            if is_initial(run.stage) {
                lemma_initial_step(world, first, run, reply);
            } else if run.stage is Finished {
                assert(run.advance(reply) == (run, Seq::<Effect>::empty()));
            }
        }
    }
}

/// Once a run has passed its checks, it has found the branches and tags that are at the root or above
/// it, and no others.
pub proof fn references_above_the_root_are_found(
    world: World,
    first: Refs,
    options: Options,
    root: Oid,
    replies: Seq<Reply>,
    name: Text,
    commit: Oid,
)
    requires
        world.wf(),
        world.is_honest(first, start(options, root), replies),
        ({
            let request = course(first, start(options, root), replies).1.request();
            ||| request is WalkRefs
            ||| request is ReadCommit
            ||| request is CountCommits
            ||| request is FindCommit
            ||| request is FindRef
            ||| request is PeelRef
            ||| request is WalkCommits
            ||| request is TakeSignature
            ||| request is CopyCommit
            ||| request is FindObject
            ||| request == Request::Finished(Outcome::Success)
        }),
    ensures
        course(first, start(options, root), replies).1.ledger.initial.contains(
            Ref { name, target: commit },
        ) <==> {
            &&& first.contains_key(name)
            &&& first[name] == commit
            &&& "refs/heads/"@.is_prefix_of(name) || "refs/tags/"@.is_prefix_of(name)
            &&& (world.reach)(commit).contains(world.root)
        },
{
    lemma_charts(world, first, options, root, replies);
    names_are_told_by_how_they_begin(name, commit);
    let run = course(first, start(options, root), replies).1;
    let r = Ref { name, target: commit };
    assert(run.ledger.initial.contains(r) <==> is_above(world, first, r));
}

/// When a run has succeeded, it knows the commits for which others stood when it began.
pub(crate) proof fn noted_duplicates(
    world: World,
    first: Refs,
    options: Options,
    root: Oid,
    replies: Seq<Reply>,
    commit: Oid,
    canonical: Oid,
)
    requires
        world.wf(),
        world.is_honest(first, start(options, root), replies),
        replay(start(options, root), replies).0.request() == Request::Finished(Outcome::Success),
    ensures
        ({
            let noted = replay(start(options, root), replies).0.ledger.duplicates;
            world.is_in_play(first, commit) && world.stands_for(first, canonical, commit)
                && canonical != commit ==> noted.contains_key(commit) && noted[commit] == canonical
        }),
{
    lemma_charts(world, first, options, root, replies);
    lemma_course(first, start(options, root), replies);
}

/// What a run that has succeeded takes for a duplicate was one when the run began.
pub(crate) proof fn duplicates_were_so(
    world: World,
    first: Refs,
    options: Options,
    root: Oid,
    replies: Seq<Reply>,
    commit: Oid,
)
    requires
        world.wf(),
        world.is_honest(first, start(options, root), replies),
        replay(start(options, root), replies).0.request() == Request::Finished(Outcome::Success),
    ensures
        ({
            let noted = replay(start(options, root), replies).0.ledger.duplicates;
            noted.contains_key(commit) ==> world.is_in_play(first, commit) && world.stands_for(
                first,
                noted[commit],
                commit,
            ) && noted[commit] != commit
        }),
{
    lemma_charts(world, first, options, root, replies);
    lemma_course(first, start(options, root), replies);
}

/// A run goes on from its checks if a branch or a tag is at the root or above it, and says so; it is
/// refused if there is none.
pub proof fn a_root_must_have_references(
    world: World,
    first: Refs,
    options: Options,
    root: Oid,
    replies: Seq<Reply>,
    reply: Reply,
)
    requires
        world.wf(),
        world.is_honest(first, start(options, root), replies),
        ({
            let (refs, run) = course(first, start(options, root), replies);
            &&& run.stage is AllRefs || run.stage is Descent
            &&& world.tells(refs, run.request(), reply)
        }),
    ensures
        ({
            let step = course(first, start(options, root), replies).1.advance(reply);
            let some = exists|name: Text| #[trigger]
                first.contains_key(name) && ("refs/heads/"@.is_prefix_of(name)
                    || "refs/tags/"@.is_prefix_of(name)) && (world.reach)(first[name]).contains(
                    world.root,
                );
            &&& step.0.request() == Request::Finished(Outcome::Exit(1)) ==> !some && step.1 == seq![
                Effect::Warn(
                    "error: no local refs descend from root "@ + options.root_name + " ("@ + hex(
                        world.root.bytes@,
                    ) + ")"@,
                ),
            ]
            &&& step.0.stage == Stage::WalkNames(Goal::Initial) ==> some && step.1 == seq![
                Effect::Print(
                    "Optimizing sub-tree history above root "@ + options.root_name + " ("@ + hex(
                        world.root.bytes@,
                    ) + ")..."@,
                ),
            ]
        }),
{
    lemma_charts(world, first, options, root, replies);
    lemma_grounded(world, first, options, root, replies);
    let run = course(first, start(options, root), replies).1;
    let ledger = run.ledger;
    let step = run.advance(reply);
    lemma_check_step(world, first, run, reply);
    match (run.stage, reply) {
        (Stage::AllRefs, Reply::Refs(Ok(records))) => {
            lemma_listed(first, records);
            let found = local_refs(records)->Ok_0;
            lemma_sift(world, first, ledger, Seq::empty(), found);
        },
        (Stage::Descent { kept, current, rest }, Reply::Answer(answer)) => {
            lemma_answered(world, first, kept, current, rest, answer);
            let next = if answer == Ok::<bool, Failure>(true) {
                kept.push(current)
            } else {
                kept
            };
            lemma_sift(world, first, ledger, next, rest);
        },
        _ => {},
    }
    if step.0.stage == Stage::Finished(Outcome::Exit(1)) {
        assert forall|name: Text| #[trigger]
            first.contains_key(name) && ("refs/heads/"@.is_prefix_of(name)
                || "refs/tags/"@.is_prefix_of(name)) implies !(world.reach)(first[name]).contains(
            world.root,
        ) by {
            names_are_told_by_how_they_begin(name, root);
            assert(!is_above(world, first, Ref { name, target: first[name] }));
        }
    }
    if step.0.stage == Stage::WalkNames(Goal::Initial) {
        let r = step.0.ledger.initial[0];
        assert(step.0.ledger.initial.contains(r));
        names_are_told_by_how_they_begin(r.name, root);
        assert(first.contains_key(r.name));
    }
}

/// A run that gives up, since there may be no more rounds, leaves each branch and each tag where it
/// stood when the run began, if that was at the root or above it.
pub proof fn giving_up_undoes_everything(
    world: World,
    first: Refs,
    options: Options,
    root: Oid,
    replies: Seq<Reply>,
    reply: Reply,
    name: Text,
)
    requires
        world.wf(),
        !options.dry_run,
        world.is_honest(first, start(options, root), replies),
        ({
            let (refs, run) = course(first, start(options, root), replies);
            &&& world.tells(refs, run.request(), reply)
            &&& run.request() !is Finished
            &&& 0 < options.max_rounds < run.advance(reply).0.ledger.round
        }),
        first.contains_key(name),
        "refs/heads/"@.is_prefix_of(name) || "refs/tags/"@.is_prefix_of(name),
        (world.reach)(first[name]).contains(world.root),
    ensures
        ({
            let (refs, run) = course(first, start(options, root), replies);
            let step = run.advance(reply);
            let next = perform(refs, step.1);
            &&& step.0.request() == Request::Finished(Outcome::Exit(1))
            &&& next.contains_key(name) && next[name] == first[name]
        }),
{
    let (refs, run) = course(first, start(options, root), replies);
    let r = Ref { name, target: first[name] };
    lemma_charts(world, first, options, root, replies);
    lemma_course(first, start(options, root), replies);
    names_are_told_by_how_they_begin(name, root);
    runs_are_sound(options, root, replies);
    assert(!is_preflight(run.stage));
    lemma_notes(run, reply);
    assert(is_above(world, first, r));
    giving_up_leaves_references_as_found(world, first, options, root, replies, reply, r);
}

} // verus!
