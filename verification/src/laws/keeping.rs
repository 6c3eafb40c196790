//! No commit is lost sight of.
use vstd::prelude::*;
use crate::laws::replay::replay;
use crate::laws::soundness::runs_are_sound;
use crate::model::{
    start, Effect, Goal, Ledger, Options, Outcome, Pass, Reply, Run, Scan, Stage, Sweep,
};
use crate::oid::Oid;
use crate::refs::{keep_branch, tags_of, Ref};
use crate::walk::Candidate;

verus! {

/// The duplicate from which the run is moving branches.
pub open spec fn leaving(stage: Stage) -> Option<Oid> {
    match stage {
        Stage::Branches(scan) => Some(scan.current.commit),
        Stage::Descends(sweep) => Some(sweep.scan.current.commit),
        Stage::Tip(sweep) => Some(sweep.scan.current.commit),
        Stage::Line { sweep, .. } => Some(sweep.scan.current.commit),
        Stage::Signature { sweep, .. } => Some(sweep.scan.current.commit),
        Stage::Copy { sweep, .. } => Some(sweep.scan.current.commit),
        _ => None,
    }
}

/// With this reply the run knows of a branch that keeps the commit, or makes one.
pub open spec fn keeps(run: Run, reply: Reply, commit: Oid) -> bool {
    ||| {
        &&& run.stage matches Stage::KeepRef(scan)
        &&& scan.current.commit == commit
        &&& reply is Found
        &&& reply->Found_0 is Ok
    }
    ||| run.advance(reply).1.contains(
        Effect::CreateBranch { name: keep_branch(commit), target: commit },
    )
}

proof fn lemma_tag_leaves(ledger: Ledger, tags: Seq<Ref>, effects: Seq<Effect>)
    ensures
        leaving(ledger.tag(tags, effects).0.stage) is None,
    decreases tags.len(),
{
    if tags.len() > 0 {
        lemma_tag_leaves(ledger, tags.drop_first(), effects);
    }
}

proof fn lemma_tags_leave(ledger: Ledger, effects: Seq<Effect>)
    ensures
        leaving(ledger.tags(effects).0.stage) is None,
{
    lemma_tag_leaves(
        ledger,
        tags_of(ledger.initial),
        effects.push(Effect::Print(crate::messages::moving_tags())),
    );
}

proof fn lemma_scan_leaves(
    ledger: Ledger,
    pass: Pass,
    candidates: Seq<Candidate>,
    effects: Seq<Effect>,
)
    ensures
        leaving(ledger.scan(pass, candidates, effects).0.stage) is None,
{
    lemma_tags_leave(ledger, effects.push(Effect::Print(crate::messages::fixpoint(ledger.round))));
}

proof fn lemma_sweep_leaves(ledger: Ledger, scan: Scan, heads: Seq<Ref>, effects: Seq<Effect>)
    ensures
        ({
            let left = leaving(ledger.sweep(scan, heads, effects).0.stage);
            left is None || left == Some(scan.current.commit)
        }),
{
    lemma_scan_leaves(ledger, scan.pass, scan.rest, effects);
}

proof fn lemma_relocated_leaves(ledger: Ledger, sweep: Sweep, effects: Seq<Effect>)
    ensures
        ({
            let left = leaving(ledger.relocated(sweep, effects).0.stage);
            left is None || left == Some(sweep.scan.current.commit)
        }),
{
    let scan = Scan { pass: Pass { changed: true, ..sweep.scan.pass }, ..sweep.scan };
    lemma_sweep_leaves(Ledger { changed: true, ..ledger }, scan, sweep.rest, effects);
}

proof fn lemma_copy_leaves(ledger: Ledger, sweep: Sweep, parent: Oid, commits: Seq<Oid>)
    ensures
        ({
            let left = leaving(ledger.copy(sweep, parent, commits).0.stage);
            left is None || left == Some(sweep.scan.current.commit)
        }),
{
    let moved = Effect::SetRef {
        name: sweep.head.name,
        target: parent,
        message: "rebase_branch_onto"@,
    };
    lemma_relocated_leaves(ledger, sweep, seq![moved]);
}

proof fn lemma_walked_leaves(ledger: Ledger, goal: Goal, commits: Seq<Oid>)
    ensures
        leaving(ledger.walked(goal, commits).0.stage) is None,
{
    match goal {
        Goal::Round => {
            lemma_tags_leave(ledger, seq![Effect::Print(crate::messages::nothing_to_do())]);
        },
        Goal::Pass(pass) => {
            lemma_scan_leaves(
                ledger,
                pass,
                crate::walk::candidates(commits, ledger.canonicals, ledger.root),
                Seq::empty(),
            );
        },
        _ => {},
    }
}

pub(crate) proof fn lemma_step(run: Run, reply: Reply, commit: Oid)
    requires
        !run.ledger.options.dry_run,
        leaving(run.advance(reply).0.stage) == Some(commit),
    ensures
        leaving(run.stage) == Some(commit) || keeps(run, reply, commit),
        leaving(run.stage) == Some(commit) || run.stage is KeepRef || run.stage is KeepCommit,
{
    let ledger = run.ledger;
    match (run.stage, reply) {
        (Stage::WalkNames(goal), Reply::Refs(_)) => {
            lemma_walked_leaves(ledger, goal, Seq::empty());
        },
        (Stage::Walk { goal, .. }, Reply::Commits(Ok(commits))) => {
            lemma_walked_leaves(ledger, goal, crate::walk::with_root(commits, ledger.root));
        },
        (Stage::Candidate(scan), Reply::Answer(_)) => {
            lemma_scan_leaves(ledger, scan.pass, scan.rest, Seq::empty());
        },
        (Stage::KeepCommit(scan), Reply::Found(Ok(_))) => {
            let effects = run.advance(reply).1;
            assert(effects[0] == Effect::CreateBranch {
                name: keep_branch(scan.current.commit),
                target: scan.current.commit,
            });
        },
        (Stage::Branches(scan), Reply::Refs(refs)) => {
            if let Ok(refs) = crate::model::listed(refs) {
                lemma_sweep_leaves(
                    ledger,
                    scan,
                    crate::refs::movable(refs, scan.current.commit),
                    Seq::empty(),
                );
            }
        },
        (Stage::Descends(sweep), Reply::Answer(_)) => {
            lemma_sweep_leaves(ledger, sweep.scan, sweep.rest, Seq::empty());
        },
        (Stage::Tip(sweep), Reply::Commit(_)) => {
            lemma_relocated_leaves(ledger, sweep, Seq::empty());
        },
        (Stage::Line { sweep, .. }, Reply::Commits(_)) => {
            lemma_relocated_leaves(ledger, sweep, Seq::empty());
        },
        (Stage::Signature { sweep, commits }, Reply::Found(_)) => {
            lemma_relocated_leaves(ledger, sweep, Seq::empty());
            lemma_copy_leaves(ledger, sweep, sweep.scan.current.canonical, commits);
        },
        (Stage::Copy { sweep, current, rest, .. }, Reply::Commit(written)) => {
            lemma_relocated_leaves(ledger, sweep, Seq::empty());
            if let Ok(copy) = written {
                let noted = Ledger { rewrites: ledger.rewrites.insert(current, copy), ..ledger };
                lemma_copy_leaves(noted, sweep, copy, rest);
            }
        },
        (Stage::Tag { tag, target, rest }, Reply::Found(Ok(_))) => {
            lemma_tag_leaves(
                ledger,
                rest,
                seq![
                    Effect::SetTag {
                        name: crate::text::trimmed(tag.name, "refs/tags/"@),
                        target,
                    },
                ],
            );
        },
        _ => {},
    }
}

/// The run has not failed.
pub(crate) open spec fn goes_on(run: Run) -> bool {
    !(run.stage matches Stage::Finished(Outcome::Failed(_)))
}

pub(crate) proof fn lemma_tag_goes_on(ledger: Ledger, tags: Seq<Ref>, effects: Seq<Effect>)
    ensures
        goes_on(ledger.tag(tags, effects).0),
        ledger.tag(tags, effects).0.stage matches Stage::Tag { rest, .. } ==> rest.len()
            < tags.len(),
        ledger.tag(tags, effects).0.stage is Tag || ledger.tag(tags, effects).0.stage is Stuck
            || ledger.tag(tags, effects).0.stage is Cleanup,
    decreases tags.len(),
{
    if tags.len() > 0 {
        lemma_tag_goes_on(ledger, tags.drop_first(), effects);
    }
}

pub(crate) proof fn lemma_tags_go_on(ledger: Ledger, effects: Seq<Effect>)
    ensures
        goes_on(ledger.tags(effects).0),
        is_past(ledger.tags(effects).0.stage),
{
    lemma_tag_goes_on(
        ledger,
        tags_of(ledger.initial),
        effects.push(Effect::Print(crate::messages::moving_tags())),
    );
}

/// The run has left the pass.
pub(crate) open spec fn is_past(stage: Stage) -> bool {
    ||| stage is Tag
    ||| stage is Stuck
    ||| stage is Cleanup
    ||| stage is Finished
}

pub(crate) proof fn lemma_scan_goes_on(
    ledger: Ledger,
    pass: Pass,
    candidates: Seq<Candidate>,
    effects: Seq<Effect>,
)
    ensures
        goes_on(ledger.scan(pass, candidates, effects).0),
        ({
            let stage = ledger.scan(pass, candidates, effects).0.stage;
            ||| is_past(stage)
            ||| stage matches Stage::WalkNames(next) && next != Goal::Pass(pass)
            ||| stage matches Stage::Candidate(scan) && scan.rest.len() < candidates.len()
        }),
{
    lemma_tags_go_on(ledger, effects.push(Effect::Print(crate::messages::fixpoint(ledger.round))));
}

pub(crate) proof fn lemma_sweep_goes_on(
    ledger: Ledger,
    scan: Scan,
    heads: Seq<Ref>,
    effects: Seq<Effect>,
)
    ensures
        goes_on(ledger.sweep(scan, heads, effects).0),
        ({
            let stage = ledger.sweep(scan, heads, effects).0.stage;
            ||| is_past(stage)
            ||| stage is WalkNames
            ||| stage is Candidate
            ||| stage matches Stage::Descends(sweep) && sweep.rest.len() < heads.len()
        }),
{
    lemma_scan_goes_on(ledger, scan.pass, scan.rest, effects);
}

pub(crate) proof fn lemma_relocate_goes_on(ledger: Ledger, sweep: Sweep)
    ensures
        goes_on(ledger.relocate(sweep).0),
        ledger.relocate(sweep).0.stage != Stage::Descends(sweep),
{
    let pass = sweep.scan.pass;
    let spot = sweep.scan.current;
    let planned = Ledger {
        plan: ledger.plan.push(
            crate::messages::moving_plan(
                pass.pattern,
                sweep.head.name,
                spot.canonical,
                spot.commit,
            ),
        ),
        ..ledger
    };
    let effects = seq![
        Effect::Print(
            crate::messages::moving(
                pass.pattern,
                ledger.round,
                pass.number,
                sweep.head.name,
                spot.canonical,
            ),
        ),
    ];
    lemma_sweep_goes_on(planned, sweep.scan, sweep.rest, effects);
}

pub(crate) proof fn lemma_relocated_goes_on(ledger: Ledger, sweep: Sweep, effects: Seq<Effect>)
    ensures
        goes_on(ledger.relocated(sweep, effects).0),
        ({
            let stage = ledger.relocated(sweep, effects).0.stage;
            is_past(stage) || stage is WalkNames || stage is Candidate || stage is Descends
        }),
{
    let scan = Scan { pass: Pass { changed: true, ..sweep.scan.pass }, ..sweep.scan };
    lemma_sweep_goes_on(Ledger { changed: true, ..ledger }, scan, sweep.rest, effects);
}

pub(crate) proof fn lemma_copy_goes_on(
    ledger: Ledger,
    sweep: Sweep,
    parent: Oid,
    commits: Seq<Oid>,
)
    ensures
        goes_on(ledger.copy(sweep, parent, commits).0),
        ({
            let stage = ledger.copy(sweep, parent, commits).0.stage;
            ||| is_past(stage) || stage is WalkNames || stage is Candidate || stage is Descends
            ||| stage matches Stage::Copy { rest, .. } && rest.len() < commits.len()
        }),
{
    let moved = Effect::SetRef {
        name: sweep.head.name,
        target: parent,
        message: "rebase_branch_onto"@,
    };
    lemma_relocated_goes_on(ledger, sweep, seq![moved]);
}

pub(crate) proof fn lemma_walked_goes_on(ledger: Ledger, goal: Goal, commits: Seq<Oid>)
    ensures
        goes_on(ledger.walked(goal, commits).0),
        goal !is Initial && goal !is Canonicals ==> ({
            let stage = ledger.walked(goal, commits).0.stage;
            ||| is_past(stage)
            ||| stage is Candidate
            ||| stage matches Stage::WalkNames(next) && next != goal
        }),
{
    match goal {
        Goal::Round => {
            lemma_tags_go_on(ledger, seq![Effect::Print(crate::messages::nothing_to_do())]);
        },
        Goal::Pass(pass) => {
            lemma_scan_goes_on(
                ledger,
                pass,
                crate::walk::candidates(commits, ledger.canonicals, ledger.root),
                Seq::empty(),
            );
        },
        _ => {},
    }
}

/// A run that is not dry moves branches away from a duplicate only after it has found, or made, a
/// branch that keeps the duplicate.
pub proof fn duplicates_are_kept(options: Options, root: Oid, replies: Seq<Reply>, commit: Oid)
    requires
        !options.dry_run,
        leaving(replay(start(options, root), replies).0.stage) == Some(commit),
    ensures
        exists|k: int|
            0 <= k < replies.len() && keeps(
                replay(start(options, root), replies.take(k)).0,
                #[trigger] replies[k],
                commit,
            ),
    decreases replies.len(),
{
    if replies.len() > 0 {
        let front = replies.drop_last();
        let before = replay(start(options, root), front).0;
        let last = replies.len() - 1;
        runs_are_sound(options, root, front);
        lemma_step(before, replies.last(), commit);
        assert(replies.take(last) =~= front);
        if leaving(before.stage) == Some(commit) {
            duplicates_are_kept(options, root, front, commit);
            let k = choose|k: int|
                0 <= k < front.len() && keeps(
                    replay(start(options, root), front.take(k)).0,
                    #[trigger] front[k],
                    commit,
                );
            assert(replies.take(k) =~= front.take(k));
            assert(replies[k] == front[k]);
        } else {
            assert(keeps(replay(start(options, root), replies.take(last)).0, replies[last], commit));
        }
    }
}

} // verus!
