//! What branches are moved from, and onto what.
use vstd::prelude::*;
use crate::canonical::{
    canonicals, every_commit_has_a_canonical, ids, known, lemma_known, CommitInfo,
};
use crate::laws::canon::lemma_precedes;
use crate::laws::converging::queue;
use crate::laws::naming::names_are_told_by_how_they_begin;
use crate::laws::preserving::{grounded, infos_ok, lemma_grounded, lemma_infos};
use crate::laws::rounds::{lemma_tag, lemma_tags_close};
use crate::laws::soundness::{is_moving, runs_are_sound};
use crate::laws::world::{course, lemma_course, Refs, World};
use crate::messages::{fixpoint, moving, moving_plan, nothing_to_do, Pattern};
use crate::model::{
    listed, start, Effect, Goal, Ledger, Options, Pass, Reply, Run, Scan, Stage, Survey, Sweep,
};
use crate::oid::Oid;
use crate::refs::{movable, Ref};
use crate::text::trimmed;
use crate::walk::{candidates, is_moved, others, with_root, Candidate};

verus! {

/// The canonical commit is another one, with the tree of the duplicate, and precedes it.
spec fn outranks(world: World, pair: Candidate) -> bool {
    &&& pair.canonical != pair.commit
    &&& (world.tree)(pair.canonical) == (world.tree)(pair.commit)
    &&& world.precedes(pair.canonical, pair.commit)
}

spec fn all_rank(world: World, pairs: Seq<Candidate>) -> bool {
    forall|i: int| 0 <= i < pairs.len() ==> outranks(world, #[trigger] pairs[i])
}

spec fn ledger_ranks(world: World, ledger: Ledger) -> bool {
    forall|c: Oid| #[trigger]
        ledger.canonicals.contains_key(c) && ledger.canonicals[c] != c ==> outranks(
            world,
            Candidate { commit: c, canonical: ledger.canonicals[c] },
        )
}

/// The pass is about the duplicate at which it is.
spec fn is_due(world: World, scan: Scan) -> bool {
    &&& all_rank(world, queue(scan))
    &&& world.descends(scan.current.commit, scan.current.canonical) == (scan.pass.pattern
        == Pattern::Shallow)
}

spec fn stage_ranks(world: World, stage: Stage) -> bool {
    match stage {
        Stage::Candidate(scan) => all_rank(world, queue(scan)),
        Stage::KeepRef(scan) => is_due(world, scan),
        Stage::KeepCommit(scan) => is_due(world, scan),
        Stage::Branches(scan) => is_due(world, scan),
        Stage::Descends(sweep) => is_due(world, sweep.scan),
        Stage::Tip(sweep) => is_due(world, sweep.scan),
        Stage::Line { sweep, .. } => is_due(world, sweep.scan),
        Stage::Signature { sweep, .. } => is_due(world, sweep.scan),
        Stage::Copy { sweep, .. } => is_due(world, sweep.scan),
        _ => true,
    }
}

spec fn ranks(world: World, run: Run) -> bool {
    ledger_ranks(world, run.ledger) && stage_ranks(world, run.stage)
}

proof fn lemma_scan(
    world: World,
    ledger: Ledger,
    pass: Pass,
    pairs: Seq<Candidate>,
    effects: Seq<Effect>,
)
    requires
        ledger_ranks(world, ledger),
        all_rank(world, pairs),
    ensures
        ranks(world, ledger.scan(pass, pairs, effects).0),
{
    if pairs.len() > 0 {
        assert(seq![pairs[0]] + pairs.drop_first() =~= pairs);
    } else {
        lemma_tags_close(ledger, effects.push(Effect::Print(fixpoint(ledger.round))));
    }
}

proof fn lemma_sweep(
    world: World,
    ledger: Ledger,
    scan: Scan,
    heads: Seq<Ref>,
    effects: Seq<Effect>,
)
    requires
        ledger_ranks(world, ledger),
        is_due(world, scan),
    ensures
        ranks(world, ledger.sweep(scan, heads, effects).0),
{
    lemma_rest(world, scan);
    lemma_scan(world, ledger, scan.pass, scan.rest, effects);
}

proof fn lemma_rest(world: World, scan: Scan)
    requires
        all_rank(world, queue(scan)),
    ensures
        all_rank(world, scan.rest),
{
    assert forall|i: int| 0 <= i < scan.rest.len() implies outranks(
        world,
        #[trigger] scan.rest[i],
    ) by {
        assert(queue(scan)[i + 1] == scan.rest[i]);
    }
}

proof fn lemma_relocated(world: World, ledger: Ledger, sweep: Sweep, effects: Seq<Effect>)
    requires
        ledger_ranks(world, ledger),
        is_due(world, sweep.scan),
    ensures
        ranks(world, ledger.relocated(sweep, effects).0),
{
    let scan = Scan { pass: Pass { changed: true, ..sweep.scan.pass }, ..sweep.scan };
    assert(queue(scan) == queue(sweep.scan));
    lemma_sweep(world, Ledger { changed: true, ..ledger }, scan, sweep.rest, effects);
}

proof fn lemma_copy(world: World, ledger: Ledger, sweep: Sweep, parent: Oid, commits: Seq<Oid>)
    requires
        ledger_ranks(world, ledger),
        is_due(world, sweep.scan),
    ensures
        ranks(world, ledger.copy(sweep, parent, commits).0),
{
    let moved = Effect::SetRef {
        name: sweep.head.name,
        target: parent,
        message: "rebase_branch_onto"@,
    };
    lemma_relocated(world, ledger, sweep, seq![moved]);
}

proof fn lemma_candidates(world: World, ledger: Ledger, commits: Seq<Oid>)
    requires
        ledger_ranks(world, ledger),
    ensures
        all_rank(world, candidates(commits, ledger.canonicals, ledger.root)),
{
    let chosen = ledger.canonicals;
    let rest = others(commits, ledger.root);
    let moved = is_moved(chosen);
    let pairs = candidates(commits, chosen, ledger.root);
    assert forall|i: int| 0 <= i < pairs.len() implies outranks(world, #[trigger] pairs[i]) by {
        let c = rest.filter(moved)[i];
        rest.lemma_filter_pred(moved, i);
        assert(chosen.contains_key(c) && chosen[c] != c);
    }
}

proof fn lemma_chosen(world: World, infos: Seq<CommitInfo>, c: Oid)
    requires
        world.wf(),
        infos_ok(world, infos),
        canonicals(infos).contains_key(c),
        canonicals(infos)[c] != c,
    ensures
        outranks(world, Candidate { commit: c, canonical: canonicals(infos)[c] }),
{
    let k = canonicals(infos)[c];
    lemma_infos(world, infos);
    lemma_known(infos);
    every_commit_has_a_canonical(infos, c);
    assert(ids(infos).contains(c) && ids(infos).contains(k));
    assert(known(infos).contains_key(c) && known(infos).contains_key(k));
    assert(!known(infos)[c].ranks_before(known(infos)[k]));
    lemma_precedes(world, k, c);
    lemma_precedes(world, c, k);
    Oid::less_is_strict_total_order(c, k, k);
}

proof fn lemma_survey(
    world: World,
    ledger: Ledger,
    survey: Survey,
    done: Seq<CommitInfo>,
    commits: Seq<Oid>,
)
    requires
        world.wf(),
        ledger_ranks(world, ledger),
        infos_ok(world, done),
    ensures
        ranks(world, ledger.survey(survey, done, commits).0),
{
    if commits.len() == 0 && survey is Round {
        let noted = Ledger { canonicals: canonicals(done), ..ledger };
        assert forall|c: Oid| #[trigger]
            noted.canonicals.contains_key(c) && noted.canonicals[c] != c implies outranks(
            world,
            Candidate { commit: c, canonical: noted.canonicals[c] },
        ) by {
            lemma_chosen(world, done, c);
        }
    }
}

proof fn lemma_walked(world: World, ledger: Ledger, goal: Goal, commits: Seq<Oid>)
    requires
        world.wf(),
        ledger_ranks(world, ledger),
    ensures
        ranks(world, ledger.walked(goal, commits).0),
{
    match goal {
        Goal::Initial => {
            lemma_survey(world, ledger, Survey::Initial, Seq::empty(), commits);
        },
        Goal::Round => {
            lemma_tags_close(ledger, seq![Effect::Print(nothing_to_do())]);
        },
        Goal::Canonicals => {
            lemma_survey(world, ledger, Survey::Round, Seq::empty(), commits);
        },
        Goal::Pass(pass) => {
            lemma_candidates(world, ledger, commits);
            let pairs = candidates(commits, ledger.canonicals, ledger.root);
            lemma_scan(world, ledger, pass, pairs, Seq::empty());
        },
    }
}

proof fn lemma_survey_step(world: World, first: Refs, refs: Refs, run: Run, reply: Reply)
    requires
        world.wf(),
        run.ledger.root == world.root,
        grounded(world, first, refs, run),
        ranks(world, run),
        world.tells(refs, run.request(), reply),
        run.stage is WalkNames || run.stage is Walk || run.stage is Info || run.stage is Depth,
    ensures
        ranks(world, run.advance(reply).0),
{
    let ledger = run.ledger;
    match (run.stage, reply) {
        (Stage::WalkNames(goal), Reply::Refs(_)) => {
            lemma_walked(world, ledger, goal, Seq::empty());
        },
        (Stage::Walk { goal, .. }, Reply::Commits(Ok(commits))) => {
            lemma_walked(world, ledger, goal, with_root(commits, ledger.root));
        },
        (Stage::Info { survey, done, current, rest }, Reply::TreeAndDate(Ok((tree, date)))) => {
            if current == ledger.root {
                assert(world.range(world.root, world.root) =~= Set::empty());
                let info = CommitInfo { tree_id: tree, depth: 0, cdate: date, oid: current };
                lemma_survey(world, ledger, survey, done.push(info), rest);
            } else if ledger.depths.contains_key(current) {
                let info = CommitInfo {
                    tree_id: tree,
                    depth: ledger.depths[current],
                    cdate: date,
                    oid: current,
                };
                lemma_survey(world, ledger, survey, done.push(info), rest);
            }
        },
        (Stage::Depth { survey, done, current, rest, tree, date }, Reply::Count(Ok(depth))) => {
            let info = CommitInfo { tree_id: tree, depth, cdate: date, oid: current };
            let next = Ledger { depths: ledger.depths.insert(current, depth), ..ledger };
            lemma_survey(world, next, survey, done.push(info), rest);
        },
        _ => {},
    }
}

proof fn lemma_pass_step(world: World, refs: Refs, run: Run, reply: Reply)
    requires
        world.wf(),
        ranks(world, run),
        world.tells(refs, run.request(), reply),
        run.stage is Candidate || run.stage is KeepRef || run.stage is KeepCommit || run.stage
            is Branches || run.stage is Descends,
    ensures
        ranks(world, run.advance(reply).0),
{
    let ledger = run.ledger;
    match (run.stage, reply) {
        (Stage::Candidate(scan), Reply::Answer(answer)) => {
            assert(queue(scan)[0] == scan.current);
            lemma_rest(world, scan);
            lemma_scan(world, ledger, scan.pass, scan.rest, Seq::empty());
        },
        (Stage::Branches(scan), Reply::Refs(refs)) => {
            if let Ok(refs) = listed(refs) {
                let heads = movable(refs, scan.current.commit);
                lemma_sweep(world, ledger, scan, heads, Seq::empty());
            }
        },
        (Stage::Descends(sweep), Reply::Answer(_)) => {
            let pass = sweep.scan.pass;
            let spot = sweep.scan.current;
            let planned = Ledger {
                plan: ledger.plan.push(
                    moving_plan(pass.pattern, sweep.head.name, spot.canonical, spot.commit),
                ),
                ..ledger
            };
            let said = Effect::Print(
                moving(pass.pattern, ledger.round, pass.number, sweep.head.name, spot.canonical),
            );
            lemma_sweep(world, planned, sweep.scan, sweep.rest, seq![said]);
            lemma_sweep(world, ledger, sweep.scan, sweep.rest, Seq::empty());
        },
        _ => {},
    }
}

proof fn lemma_move_step(world: World, run: Run, reply: Reply)
    requires
        ranks(world, run),
        is_moving(run.stage),
    ensures
        ranks(world, run.advance(reply).0),
{
    let ledger = run.ledger;
    match (run.stage, reply) {
        (Stage::Tip(sweep), Reply::Commit(_)) => {
            lemma_relocated(world, ledger, sweep, Seq::empty());
        },
        (Stage::Line { sweep, .. }, Reply::Commits(_)) => {
            lemma_relocated(world, ledger, sweep, Seq::empty());
        },
        (Stage::Signature { sweep, commits }, Reply::Found(_)) => {
            lemma_relocated(world, ledger, sweep, Seq::empty());
            lemma_copy(world, ledger, sweep, sweep.scan.current.canonical, commits);
        },
        (Stage::Copy { sweep, current, rest, .. }, Reply::Commit(written)) => {
            lemma_relocated(world, ledger, sweep, Seq::empty());
            if let Ok(copy) = written {
                let noted = Ledger { rewrites: ledger.rewrites.insert(current, copy), ..ledger };
                lemma_copy(world, noted, sweep, copy, rest);
            }
        },
        _ => {},
    }
}

proof fn lemma_other_step(world: World, run: Run, reply: Reply)
    requires
        ranks(world, run),
        !is_moving(run.stage),
        !(run.stage is WalkNames || run.stage is Walk || run.stage is Info || run.stage is Depth
            || run.stage is Candidate || run.stage is KeepRef || run.stage is KeepCommit
            || run.stage is Branches || run.stage is Descends),
    ensures
        ranks(world, run.advance(reply).0),
{
    if let (Stage::Tag { tag, target, rest }, Reply::Found(Ok(_))) = (run.stage, reply) {
        let moved = Effect::SetTag { name: trimmed(tag.name, "refs/tags/"@), target };
        lemma_tag(run.ledger, rest, seq![moved]);
    }
}

proof fn lemma_ranks(world: World, first: Refs, options: Options, root: Oid, replies: Seq<Reply>)
    requires
        world.wf(),
        world.is_honest(first, start(options, root), replies),
    ensures
        ranks(world, course(first, start(options, root), replies).1),
    decreases replies.len(),
{
    if replies.len() > 0 {
        let front = replies.drop_last();
        let reply = replies.last();
        lemma_ranks(world, first, options, root, front);
        lemma_grounded(world, first, options, root, front);
        let (refs, run) = course(first, start(options, root), front);
        if run.stage is WalkNames || run.stage is Walk || run.stage is Info || run.stage is Depth {
            lemma_survey_step(world, first, refs, run, reply);
        } else if is_moving(run.stage) {
            lemma_move_step(world, run, reply);
        } else if run.stage is Candidate || run.stage is KeepRef || run.stage is KeepCommit
            || run.stage is Branches || run.stage is Descends {
            lemma_pass_step(world, refs, run, reply);
        } else {
            lemma_other_step(world, run, reply);
        }
    }
}

/// The duplicate at which a pass is, and whose branches it moves or is about to move.
pub open spec fn spot_of(stage: Stage) -> Option<(Pattern, Candidate)> {
    match stage {
        Stage::KeepRef(scan) => Some((scan.pass.pattern, scan.current)),
        Stage::KeepCommit(scan) => Some((scan.pass.pattern, scan.current)),
        Stage::Branches(scan) => Some((scan.pass.pattern, scan.current)),
        Stage::Descends(sweep) => Some((sweep.scan.pass.pattern, sweep.scan.current)),
        Stage::Tip(sweep) => Some((sweep.scan.pass.pattern, sweep.scan.current)),
        Stage::Line { sweep, .. } => Some((sweep.scan.pass.pattern, sweep.scan.current)),
        Stage::Signature { sweep, .. } => Some((sweep.scan.pass.pattern, sweep.scan.current)),
        Stage::Copy { sweep, .. } => Some((sweep.scan.pass.pattern, sweep.scan.current)),
        _ => None,
    }
}

/// A pass keeps a commit, and moves branches from it, only if another commit has its tree and
/// precedes it, and then moves them onto that one. The second pattern is for commits that descend
/// from the other, the first one for all others.
pub proof fn branches_move_onto_commits_that_precede(
    world: World,
    first: Refs,
    options: Options,
    root: Oid,
    replies: Seq<Reply>,
    pattern: Pattern,
    commit: Oid,
    canonical: Oid,
)
    requires
        world.wf(),
        world.is_honest(first, start(options, root), replies),
        spot_of(course(first, start(options, root), replies).1.stage) == Some(
            (pattern, Candidate { commit, canonical }),
        ),
    ensures
        canonical != commit,
        (world.tree)(canonical) == (world.tree)(commit),
        world.precedes(canonical, commit),
        pattern == Pattern::Shallow <==> (world.reach)(commit).contains(canonical),
{
    lemma_ranks(world, first, options, root, replies);
    let stage = course(first, start(options, root), replies).1.stage;
    match stage {
        Stage::KeepRef(scan) => {
            assert(queue(scan)[0] == scan.current);
        },
        Stage::KeepCommit(scan) => {
            assert(queue(scan)[0] == scan.current);
        },
        Stage::Branches(scan) => {
            assert(queue(scan)[0] == scan.current);
        },
        Stage::Descends(sweep) => {
            assert(queue(sweep.scan)[0] == sweep.scan.current);
        },
        Stage::Tip(sweep) => {
            assert(queue(sweep.scan)[0] == sweep.scan.current);
        },
        Stage::Line { sweep, .. } => {
            assert(queue(sweep.scan)[0] == sweep.scan.current);
        },
        Stage::Signature { sweep, .. } => {
            assert(queue(sweep.scan)[0] == sweep.scan.current);
        },
        Stage::Copy { sweep, .. } => {
            assert(queue(sweep.scan)[0] == sweep.scan.current);
        },
        _ => {},
    }
}

/// The branch that a run is moving.
pub open spec fn sweep_of(stage: Stage) -> Option<Sweep> {
    match stage {
        Stage::Tip(sweep) => Some(sweep),
        Stage::Line { sweep, .. } => Some(sweep),
        Stage::Signature { sweep, .. } => Some(sweep),
        Stage::Copy { sweep, .. } => Some(sweep),
        _ => None,
    }
}

/// A branch is moved only if it stands above the duplicate, and is none of those that runs make.
pub proof fn only_branches_above_duplicates_move(
    world: World,
    first: Refs,
    options: Options,
    root: Oid,
    replies: Seq<Reply>,
    sweep: Sweep,
)
    requires
        world.wf(),
        world.is_honest(first, start(options, root), replies),
        sweep_of(course(first, start(options, root), replies).1.stage) == Some(sweep),
    ensures
        ({
            let refs = course(first, start(options, root), replies).0;
            let (name, commit) = (sweep.head.name, sweep.scan.current.commit);
            &&& refs.contains_key(name) && refs[name] == sweep.head.target
            &&& "refs/heads/"@.is_prefix_of(name)
            &&& !"refs/heads/gto-keep/"@.is_prefix_of(name)
            &&& !"refs/heads/gto/"@.is_prefix_of(name)
            &&& refs[name] != commit && (world.reach)(refs[name]).contains(commit)
        }),
{
    lemma_grounded(world, first, options, root, replies);
    lemma_course(first, start(options, root), replies);
    runs_are_sound(options, root, replies);
    names_are_told_by_how_they_begin(sweep.head.name, root);
    let all = seq![sweep.head] + sweep.rest;
    assert(all[0] == sweep.head);
}

} // verus!
