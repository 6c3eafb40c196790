//! How rounds and passes follow one another, and what a run says on the way.
use vstd::prelude::*;
use crate::laws::soundness::{is_closing, is_initial, is_moving, is_unsettled, is_untagged};
use crate::messages::{
    cleaning, fixpoint, moving, moving_plan, moving_tags, nothing_to_do, plan_begins, Pattern,
};
use crate::model::{
    listed, print_left, print_plan, restore, succ, Effect, Goal, Ledger, Outcome, Pass, Reply,
    Request, Run, Scan, Stage, Sweep,
};
use crate::oid::{hex, Oid};
use crate::refs::{movable, tags_of, Failure, Ref};
use crate::text::{decimal, trimmed, Text};
use crate::walk::{candidates, with_root, Candidate};
use crate::laws::wording::lines_name_commits_and_branches;
use crate::canonical::{duplicates, CommitInfo};
use crate::laws::opening::answers;
use crate::laws::listing::{selects, tags_at_duplicates};

verus! {

/// A round has begun, or was refused.
pub open spec fn has_begun(ledger: Ledger, step: (Run, Seq<Effect>)) -> bool {
    let (round, limit) = (step.0.ledger.round, ledger.options.max_rounds);
    &&& ledger.round < usize::MAX ==> round == ledger.round + 1
    &&& ledger.round == usize::MAX ==> round == 0
    &&& step.1.contains(
        Effect::Print(
            "Round "@ + decimal(round as nat) + ": enumerating commits and canonical groups..."@,
        ),
    )
    &&& if 0 < limit < round {
        &&& step.0.request() == Request::Finished(Outcome::Exit(1))
        &&& step.1.contains(
            Effect::Warn("error: exceeded max rounds ("@ + decimal(limit as nat) + ")"@),
        )
    } else {
        step.0.stage == Stage::WalkNames(Goal::Round)
    }
}

/// What a step says about rounds and about the end.
spec fn step_ok(ledger: Ledger, unsettled: bool, step: (Run, Seq<Effect>)) -> bool {
    let stage = step.0.stage;
    &&& step.0.ledger.round == ledger.round && stage != Stage::WalkNames(Goal::Round) || (unsettled
        && has_begun(ledger, step))
    &&& is_closing(stage) ==> closes(ledger, step)
}

/// The effects with which a dry run ends: the plan is printed, item by item, and the references that
/// were found are set to where they are.
pub open spec fn with_plan(lead: Seq<Effect>, ledger: Ledger) -> Seq<Effect> {
    lead + seq![Effect::Print("plan:"@)] + ledger.plan.map_values(
        |item: Text| Effect::Print("  "@ + item),
    ) + ledger.initial.map_values(
        |r: Ref|
            Effect::SetRef { name: r.name, target: r.target, message: "rollback_dry_run"@ },
    ) + seq![Effect::Print("Finished sub-tree history optimization."@)]
}

/// The places are those of the tags at duplicates, among the references that were found.
pub open spec fn names_tags(ledger: Ledger, at: Seq<int>) -> bool {
    selects(
        ledger.initial,
        at,
        |r: Ref| "refs/tags/"@.is_prefix_of(r.name) && ledger.duplicates.contains_key(r.target),
    )
}

/// The effects with which the rounds end where tags stay: those at duplicates are named.
pub open spec fn with_tags(lead: Seq<Effect>, ledger: Ledger, at: Seq<int>) -> Seq<Effect> {
    lead + at.map_values(|k: int| Effect::Print(ledger.initial[k].name + " left"@)) + seq![
        Effect::Print("Cleaning up temporary branches..."@),
    ]
}

/// The lines with which the rounds end.
pub open spec fn closes(ledger: Ledger, step: (Run, Seq<Effect>)) -> bool {
    let (stage, effects) = (step.0.stage, step.1);
    &&& effects.contains(
        Effect::Print(
            "Fixpoint reached in round "@ + decimal(ledger.round as nat)
                + ". Optimization complete."@,
        ),
    ) || effects.contains(Effect::Print("No reachable commits to optimize."@))
    &&& forall|i: int| 0 <= i < effects.len() ==> (#[trigger] effects[i]) !is SetTag
    &&& ledger.options.dry_run ==> {
        &&& stage == Stage::Finished(Outcome::Success)
        &&& exists|lead: Seq<Effect>| effects == #[trigger] with_plan(lead, step.0.ledger)
        &&& effects.last() == Effect::Print("Finished sub-tree history optimization."@)
    }
    &&& !ledger.options.dry_run ==> {
        &&& stage !is Finished
        &&& ledger.options.move_tags ==> effects.contains(
            Effect::Print("Updating tags to point to canonical commits..."@),
        )
        &&& stage is Cleanup ==> effects.last() == Effect::Print(
            "Cleaning up temporary branches..."@,
        )
        &&& !ledger.options.move_tags ==> exists|lead: Seq<Effect>, at: Seq<int>|
            #![trigger with_tags(lead, ledger, at)]
            names_tags(ledger, at) && effects == with_tags(lead, ledger, at)
    }
}

/// What is among the first effects is among all.
proof fn lemma_push_contains(effects: Seq<Effect>, more: Seq<Effect>)
    ensures
        forall|e: Effect| effects.contains(e) ==> #[trigger] (effects + more).contains(e),
        forall|e: Effect| more.contains(e) ==> #[trigger] (effects + more).contains(e),
{
    let all = effects + more;
    assert forall|e: Effect| effects.contains(e) implies #[trigger] all.contains(e) by {
        let i = choose|i: int| 0 <= i < effects.len() && effects[i] == e;
        assert(all[i] == e);
    }
    assert forall|e: Effect| more.contains(e) implies #[trigger] all.contains(e) by {
        let i = choose|i: int| 0 <= i < more.len() && more[i] == e;
        assert(all[effects.len() + i] == e);
    }
}

proof fn lemma_push(effects: Seq<Effect>, effect: Effect)
    ensures
        effects.push(effect).contains(effect),
        forall|e: Effect| effects.contains(e) ==> #[trigger] effects.push(effect).contains(e),
{
    lemma_push_contains(effects, seq![effect]);
    assert(effects + seq![effect] =~= effects.push(effect));
    assert(effects.push(effect)[effects.len() as int] == effect);
}

pub(crate) proof fn lemma_tag(ledger: Ledger, tags: Seq<Ref>, effects: Seq<Effect>)
    ensures
        ({
            let step = ledger.tag(tags, effects);
            &&& step.0.ledger == ledger
            &&& step.0.stage is Tag || step.0.stage is Stuck || step.0.stage is Cleanup
            &&& forall|e: Effect| effects.contains(e) ==> #[trigger] step.1.contains(e)
            &&& is_untagged(effects) ==> is_untagged(step.1)
            &&& step.0.stage is Cleanup ==> step.1.last() == Effect::Print(
                "Cleaning up temporary branches..."@,
            )
        }),
    decreases tags.len(),
{
    lemma_push(effects, Effect::Print(cleaning()));
    if tags.len() > 0 {
        lemma_tag(ledger, tags.drop_first(), effects);
    }
}

proof fn lemma_tags(ledger: Ledger, effects: Seq<Effect>)
    requires
        effects.contains(Effect::Print(fixpoint(ledger.round))) || effects.contains(
            Effect::Print(nothing_to_do()),
        ),
        is_untagged(effects),
    ensures
        ledger.tags(effects).0.ledger == ledger,
        is_closing(ledger.tags(effects).0.stage),
        closes(ledger, ledger.tags(effects)),
{
    let tags = tags_of(ledger.initial);
    if ledger.options.dry_run {
        let begun = effects.push(Effect::Print(plan_begins()));
        let (plan, back) = (
            print_plan(ledger.plan),
            restore(ledger.initial, "rollback_dry_run"@),
        );
        let end = seq![
            Effect::Print("Finished sub-tree history optimization."@),
        ];
        lemma_push(effects, Effect::Print(plan_begins()));
        lemma_push_contains(begun, plan);
        lemma_push_contains(begun + plan, back);
        lemma_push_contains(begun + plan + back, end);
        let all = begun + plan + back + end;
        assert(all.last() == end[0]);
        let step = ledger.tags(effects);
        assert(step.1 == all);
        assert(step.1 =~= with_plan(effects, step.0.ledger));
    } else if ledger.options.move_tags {
        lemma_push(effects, Effect::Print(moving_tags()));
        lemma_tag(ledger, tags, effects.push(Effect::Print(moving_tags())));
    } else {
        let left = print_left(tags, ledger.duplicates);
        lemma_push_contains(effects, left);
        lemma_push(effects + left, Effect::Print(cleaning()));
        let at = tags_at_duplicates(ledger.initial, ledger.duplicates);
        assert(ledger.tags(effects).1 =~= with_tags(effects, ledger, at));
    }
}

proof fn lemma_begin_round(ledger: Ledger, effects: Seq<Effect>)
    ensures
        has_begun(ledger, ledger.begin_round(effects)),
        !is_closing(ledger.begin_round(effects).0.stage),
{
    let round = succ(ledger.round);
    let limit = ledger.options.max_rounds;
    let line = Effect::Print(
        "Round "@ + decimal(round as nat) + ": enumerating commits and canonical groups..."@,
    );
    let warning = Effect::Warn("error: exceeded max rounds ("@ + decimal(limit as nat) + ")"@);
    lemma_push(effects, line);
    lemma_push(effects.push(line), warning);
    lemma_push_contains(effects.push(line).push(warning), restore(ledger.initial, "rollback"@));
}

proof fn lemma_scan(
    ledger: Ledger,
    pass: Pass,
    pairs: Seq<Candidate>,
    effects: Seq<Effect>,
)
    requires
        is_untagged(effects),
    ensures
        step_ok(
            ledger,
            ledger.changed || ledger.added,
            ledger.scan(pass, pairs, effects),
        ),
{
    if pairs.len() == 0 && !pass.changed && pass.pattern == Pattern::Shallow {
        if !ledger.changed && !ledger.added {
            lemma_push(effects, Effect::Print(fixpoint(ledger.round)));
            lemma_tags(ledger, effects.push(Effect::Print(fixpoint(ledger.round))));
        } else {
            lemma_begin_round(ledger, effects);
        }
    }
}

proof fn lemma_sweep(ledger: Ledger, scan: Scan, heads: Seq<Ref>, effects: Seq<Effect>)
    requires
        is_untagged(effects),
    ensures
        step_ok(ledger, ledger.changed || ledger.added, ledger.sweep(scan, heads, effects)),
{
    lemma_scan(ledger, scan.pass, scan.rest, effects);
}

proof fn lemma_relocated(ledger: Ledger, sweep: Sweep, effects: Seq<Effect>)
    requires
        is_untagged(effects),
    ensures
        step_ok(ledger, true, ledger.relocated(sweep, effects)),
{
    let scan = Scan { pass: Pass { changed: true, ..sweep.scan.pass }, ..sweep.scan };
    lemma_sweep(Ledger { changed: true, ..ledger }, scan, sweep.rest, effects);
}

proof fn lemma_relocate(ledger: Ledger, sweep: Sweep)
    ensures
        step_ok(ledger, ledger.changed || ledger.added, ledger.relocate(sweep)),
{
    let pass = sweep.scan.pass;
    let spot = sweep.scan.current;
    let planned = Ledger {
        plan: ledger.plan.push(
            moving_plan(pass.pattern, sweep.head.name, spot.canonical, spot.commit),
        ),
        ..ledger
    };
    let said = Effect::Print(
        moving(pass.pattern, ledger.round, pass.number, sweep.head.name, spot.canonical),
    );
    lemma_sweep(planned, sweep.scan, sweep.rest, seq![said]);
}

proof fn lemma_copy(ledger: Ledger, sweep: Sweep, parent: Oid, commits: Seq<Oid>)
    ensures
        step_ok(ledger, true, ledger.copy(sweep, parent, commits)),
{
    let moved = Effect::SetRef {
        name: sweep.head.name,
        target: parent,
        message: "rebase_branch_onto"@,
    };
    lemma_relocated(ledger, sweep, seq![moved]);
}

proof fn lemma_walked(ledger: Ledger, goal: Goal, commits: Seq<Oid>)
    ensures
        step_ok(
            ledger,
            goal is Initial || ledger.changed || ledger.added,
            ledger.walked(goal, commits),
        ),
{
    match goal {
        Goal::Initial => {
            if commits.len() == 0 {
                lemma_begin_round(
                    Ledger {
                        duplicates: duplicates(Seq::empty()),
                        ..ledger
                    },
                    Seq::empty(),
                );
            }
        },
        Goal::Round => {
            let said = seq![Effect::Print(nothing_to_do())];
            assert(said[0] == Effect::Print(nothing_to_do()));
            assert(said.contains(Effect::Print(nothing_to_do())));
            lemma_tags(ledger, said);
        },
        Goal::Canonicals => {},
        Goal::Pass(pass) => {
            lemma_scan(
                ledger,
                pass,
                candidates(commits, ledger.canonicals, ledger.root),
                Seq::empty(),
            );
        },
    }
}

proof fn lemma_survey_step(run: Run, reply: Reply)
    requires
        run.stage is Info || run.stage is Depth,
    ensures
        step_ok(run.ledger, is_initial(run.stage), run.advance(reply)),
{
    let ledger = run.ledger;
    match (run.stage, reply) {
        (Stage::Info { done, current, rest, .. }, Reply::TreeAndDate(Ok((tree, date)))) => {
            let depth = if current == ledger.root {
                0
            } else {
                ledger.depths[current]
            };
            let info = CommitInfo {
                tree_id: tree,
                depth,
                cdate: date,
                oid: current,
            };
            let noted = Ledger {
                duplicates: duplicates(done.push(info)),
                ..ledger
            };
            lemma_begin_round(noted, Seq::empty());
        },
        (Stage::Depth { done, current, tree, date, .. }, Reply::Count(Ok(depth))) => {
            let info = CommitInfo {
                tree_id: tree,
                depth,
                cdate: date,
                oid: current,
            };
            let noted = Ledger {
                depths: ledger.depths.insert(current, depth),
                duplicates: duplicates(done.push(info)),
                ..ledger
            };
            lemma_begin_round(noted, Seq::empty());
        },
        _ => {},
    }
}

proof fn lemma_step(run: Run, reply: Reply)
    requires
        !is_closing(run.stage),
        run.stage != Stage::WalkNames(Goal::Round),
    ensures
        step_ok(run.ledger, is_initial(run.stage) || is_unsettled(run), run.advance(reply)),
{
    let ledger = run.ledger;
    match (run.stage, reply) {
        (Stage::WalkNames(goal), Reply::Refs(_)) => {
            lemma_walked(ledger, goal, Seq::empty());
        },
        (Stage::Walk { goal, .. }, Reply::Commits(Ok(commits))) => {
            lemma_walked(ledger, goal, with_root(commits, ledger.root));
        },
        (Stage::Info { .. }, _) => {
            lemma_survey_step(run, reply);
        },
        (Stage::Depth { .. }, _) => {
            lemma_survey_step(run, reply);
        },
        (Stage::Candidate(scan), Reply::Answer(_)) => {
            lemma_scan(ledger, scan.pass, scan.rest, Seq::empty());
        },
        (Stage::Branches(scan), Reply::Refs(refs)) => {
            if let Ok(refs) = listed(refs) {
                lemma_sweep(ledger, scan, movable(refs, scan.current.commit), Seq::empty());
            }
        },
        (Stage::Descends(sweep), Reply::Answer(_)) => {
            lemma_relocate(ledger, sweep);
            lemma_sweep(ledger, sweep.scan, sweep.rest, Seq::empty());
        },
        (Stage::Tip(sweep), Reply::Commit(_)) => {
            lemma_relocated(ledger, sweep, Seq::empty());
        },
        (Stage::Line { sweep, .. }, Reply::Commits(_)) => {
            lemma_relocated(ledger, sweep, Seq::empty());
        },
        (Stage::Signature { sweep, commits }, Reply::Found(_)) => {
            lemma_relocated(ledger, sweep, Seq::empty());
            lemma_copy(ledger, sweep, sweep.scan.current.canonical, commits);
        },
        (Stage::Copy { sweep, current, rest, .. }, Reply::Commit(written)) => {
            lemma_relocated(ledger, sweep, Seq::empty());
            if let Ok(copy) = written {
                let noted = Ledger { rewrites: ledger.rewrites.insert(current, copy), ..ledger };
                lemma_copy(noted, sweep, copy, rest);
            }
        },
        _ => {},
    }
}

/// The number of the round changes only when a round begins: after the commits were surveyed as they
/// were found, or at the end of a round that has made a temporary branch or has moved one or tried
/// to. Each round has the number after the one before it, and is announced. It is refused only if
/// its number is over the limit, where there is one.
pub proof fn rounds_follow_one_another(run: Run, reply: Reply)
    requires
        !is_closing(run.stage),
        run.stage != Stage::WalkNames(Goal::Round),
    ensures
        ({
            let step = run.advance(reply);
            let begins = step.0.stage == Stage::WalkNames(Goal::Round) || step.0.ledger.round
                != run.ledger.round;
            begins ==> has_begun(run.ledger, step) && (is_initial(run.stage) || is_unsettled(run))
        }),
{
    lemma_step(run, reply);
}

/// When the rounds end, the run says so, and goes on to the tags and the temporary branches; a dry
/// run prints its plan and ends.
pub proof fn the_end_of_the_rounds_is_announced(run: Run, reply: Reply)
    requires
        !is_closing(run.stage),
        is_closing(run.advance(reply).0.stage),
    ensures
        closes(run.ledger, run.advance(reply)),
{
    if run.stage == Stage::WalkNames(Goal::Round) {
        lemma_walked(run.ledger, Goal::Round, Seq::empty());
    } else {
        lemma_step(run, reply);
    }
}

/// A run ends well with the clean-up, whether or not that gets a listing, and says so last. Without
/// one, it deletes nothing.
pub proof fn clean_up_ends_the_run(run: Run, reply: Reply)
    requires
        run.stage is Cleanup,
        reply is Refs,
    ensures
        ({
            let step = run.advance(reply);
            &&& step.0.request() == Request::Finished(Outcome::Success)
            &&& step.1.last() == Effect::Print("Finished sub-tree history optimization."@)
            &&& reply matches Reply::Refs(Err(_)) ==> step.1 == seq![
                Effect::Print("Finished sub-tree history optimization."@),
            ]
        }),
{
    let end = seq![Effect::Print("Finished sub-tree history optimization."@)];
    let all = run.advance(reply).1;
    assert(all.last() == end[0]);
    if let Reply::Refs(Err(_)) = reply {
        assert(all =~= end);
    }
}

/// A run says that it moves a branch before it does so, or would do so in a dry run.
pub proof fn moves_are_announced(ledger: Ledger, sweep: Sweep)
    ensures
        ({
            let step = ledger.at(Stage::Descends(sweep)).advance(Reply::Answer(Ok(true)));
            let pass = sweep.scan.pass;
            let (first, second) = match pass.pattern {
                Pattern::Rebase => (" Pass 1 (pass "@, "): rebasing "@),
                Pattern::Shallow => (" Pass 2 (pass "@, "): shallowing "@),
            };
            &&& step.1.len() > 0
            &&& step.1[0] == Effect::Print(
                "Round "@ + decimal(ledger.round as nat) + first + decimal(pass.number as nat)
                    + second + sweep.head.name + " onto canonical "@ + hex(
                    sweep.scan.current.canonical.bytes@,
                ),
            )
            &&& !ledger.options.dry_run ==> step.0.request() == Request::PeelRef(sweep.head.name)
        }),
{
    let pass = sweep.scan.pass;
    let spot = sweep.scan.current;
    let planned = Ledger {
        plan: ledger.plan.push(
            moving_plan(pass.pattern, sweep.head.name, spot.canonical, spot.commit),
        ),
        ..ledger
    };
    let said = seq![
        Effect::Print(
            moving(pass.pattern, ledger.round, pass.number, sweep.head.name, spot.canonical),
        ),
    ];
    if ledger.options.dry_run {
        lemma_sweep_begins(planned, sweep.scan, sweep.rest, said);
    }
}

proof fn lemma_sweep_begins(ledger: Ledger, scan: Scan, heads: Seq<Ref>, effects: Seq<Effect>)
    requires
        ledger.options.dry_run,
        effects.len() > 0,
    ensures
        ledger.sweep(scan, heads, effects).1.len() > 0,
        ledger.sweep(scan, heads, effects).1[0] == effects[0],
{
}

/// Before a run makes a temporary branch, it says so.
pub proof fn temporary_branches_are_announced(run: Run, reply: Reply, commit: Oid, rest: Seq<Oid>)
    requires
        run.stage is Heads || run.stage is Branch,
        run.advance(reply).0.stage == (Stage::Branch { current: commit, rest }),
        run.advance(reply).0.stage != run.stage,
    ensures
        run.advance(reply).1.last() == Effect::Print(
            "Step 0: creating temporary branch refs/heads/gto/"@ + hex(commit.bytes@)
                + " for duplicate commit "@ + hex(commit.bytes@),
        ),
{
    lines_name_commits_and_branches(Seq::empty(), commit, commit, 0, 0);
}

/// The pass in which the run is.
pub open spec fn pass_of(stage: Stage) -> Option<Pass> {
    match stage {
        Stage::WalkNames(Goal::Pass(pass)) => Some(pass),
        Stage::Walk { goal: Goal::Pass(pass), .. } => Some(pass),
        Stage::Candidate(scan) => Some(scan.pass),
        Stage::KeepRef(scan) => Some(scan.pass),
        Stage::KeepCommit(scan) => Some(scan.pass),
        Stage::Branches(scan) => Some(scan.pass),
        Stage::Descends(sweep) => Some(sweep.scan.pass),
        Stage::Tip(sweep) => Some(sweep.scan.pass),
        Stage::Line { sweep, .. } => Some(sweep.scan.pass),
        Stage::Signature { sweep, .. } => Some(sweep.scan.pass),
        Stage::Copy { sweep, .. } => Some(sweep.scan.pass),
        _ => None,
    }
}

/// The stage may come after one in the pass, which has moved a branch, or tried to, if `moved`.
pub open spec fn may_follow(pass: Pass, moved: bool, stage: Stage) -> bool {
    match pass_of(stage) {
        Some(next) => {
            ||| stage !is WalkNames && next.pattern == pass.pattern && next.number == pass.number
                && next.changed == if is_moving(stage) {
                pass.changed
            } else {
                moved
            }
            ||| stage is WalkNames && moved && next == (Pass {
                pattern: pass.pattern,
                number: succ(pass.number),
                changed: false,
            })
            ||| stage is WalkNames && !moved && pass.pattern == Pattern::Rebase && next == (Pass {
                pattern: Pattern::Shallow,
                number: 1,
                changed: false,
            })
        },
        None => {
            ||| pass.pattern == Pattern::Shallow && !moved
            ||| stage matches Stage::Finished(Outcome::Failed(_))
        },
    }
}

/// The rounds are over, and nothing else is noted.
pub(crate) proof fn lemma_tags_close(ledger: Ledger, effects: Seq<Effect>)
    ensures
        ledger.tags(effects).0.ledger == ledger,
        is_closing(ledger.tags(effects).0.stage),
{
    lemma_tag(ledger, tags_of(ledger.initial), effects.push(Effect::Print(moving_tags())));
}

proof fn lemma_tag_pass(ledger: Ledger, effects: Seq<Effect>)
    ensures
        pass_of(ledger.tags(effects).0.stage) is None,
{
    lemma_tag(
        ledger,
        tags_of(ledger.initial),
        effects.push(Effect::Print(moving_tags())),
    );
}

proof fn lemma_scan_pass(ledger: Ledger, pass: Pass, pairs: Seq<Candidate>, effects: Seq<Effect>)
    ensures
        may_follow(pass, pass.changed, ledger.scan(pass, pairs, effects).0.stage),
{
    lemma_tag_pass(ledger, effects.push(Effect::Print(fixpoint(ledger.round))));
}

proof fn lemma_sweep_pass(ledger: Ledger, scan: Scan, heads: Seq<Ref>, effects: Seq<Effect>)
    ensures
        may_follow(scan.pass, scan.pass.changed, ledger.sweep(scan, heads, effects).0.stage),
{
    lemma_scan_pass(ledger, scan.pass, scan.rest, effects);
}

proof fn lemma_relocated_pass(ledger: Ledger, sweep: Sweep, effects: Seq<Effect>)
    ensures
        may_follow(sweep.scan.pass, true, ledger.relocated(sweep, effects).0.stage),
{
    let scan = Scan { pass: Pass { changed: true, ..sweep.scan.pass }, ..sweep.scan };
    lemma_sweep_pass(Ledger { changed: true, ..ledger }, scan, sweep.rest, effects);
}

proof fn lemma_relocate_pass(ledger: Ledger, sweep: Sweep)
    ensures
        may_follow(
            sweep.scan.pass,
            sweep.scan.pass.changed,
            ledger.relocate(sweep).0.stage,
        ),
{
    let pass = sweep.scan.pass;
    let spot = sweep.scan.current;
    let planned = Ledger {
        plan: ledger.plan.push(
            moving_plan(pass.pattern, sweep.head.name, spot.canonical, spot.commit),
        ),
        ..ledger
    };
    let said = Effect::Print(
        moving(pass.pattern, ledger.round, pass.number, sweep.head.name, spot.canonical),
    );
    lemma_sweep_pass(planned, sweep.scan, sweep.rest, seq![said]);
}

proof fn lemma_copy_pass(ledger: Ledger, sweep: Sweep, parent: Oid, commits: Seq<Oid>)
    ensures
        may_follow(sweep.scan.pass, true, ledger.copy(sweep, parent, commits).0.stage),
{
    let moved = Effect::SetRef {
        name: sweep.head.name,
        target: parent,
        message: "rebase_branch_onto"@,
    };
    lemma_relocated_pass(ledger, sweep, seq![moved]);
}

proof fn lemma_walk_follows(run: Run, pass: Pass, reply: Reply)
    requires
        run.stage == Stage::WalkNames(Goal::Pass(pass)) || (run.stage matches Stage::Walk {
            goal,
            ..
        } && goal == Goal::Pass(pass)),
        answers(run.request(), reply),
    ensures
        may_follow(pass, pass.changed, run.advance(reply).0.stage),
{
    let ledger = run.ledger;
    let none = candidates(Seq::empty(), ledger.canonicals, ledger.root);
    lemma_scan_pass(ledger, pass, none, Seq::empty());
    if let Reply::Commits(Ok(commits)) = reply {
        let all = with_root(commits, ledger.root);
        let pairs = candidates(all, ledger.canonicals, ledger.root);
        lemma_scan_pass(ledger, pass, pairs, Seq::empty());
    }
}

proof fn lemma_scan_follows(run: Run, reply: Reply)
    requires
        run.stage is Candidate || run.stage is KeepRef || run.stage is KeepCommit || run.stage
            is Branches,
        answers(run.request(), reply),
    ensures
        ({
            let pass = pass_of(run.stage)->0;
            may_follow(pass, pass.changed, run.advance(reply).0.stage)
        }),
{
    let ledger = run.ledger;
    match (run.stage, reply) {
        (Stage::Candidate(scan), Reply::Answer(_)) => {
            lemma_scan_pass(ledger, scan.pass, scan.rest, Seq::empty());
        },
        (Stage::Branches(scan), Reply::Refs(refs)) => {
            if let Ok(refs) = listed(refs) {
                lemma_sweep_pass(ledger, scan, movable(refs, scan.current.commit), Seq::empty());
            }
        },
        _ => {},
    }
}

proof fn lemma_move_follows(run: Run, reply: Reply)
    requires
        is_moving(run.stage),
        answers(run.request(), reply),
    ensures
        may_follow(pass_of(run.stage)->0, true, run.advance(reply).0.stage),
{
    let ledger = run.ledger;
    match (run.stage, reply) {
        (Stage::Tip(sweep), Reply::Commit(_)) => {
            lemma_relocated_pass(ledger, sweep, Seq::empty());
        },
        (Stage::Line { sweep, .. }, Reply::Commits(_)) => {
            lemma_relocated_pass(ledger, sweep, Seq::empty());
        },
        (Stage::Signature { sweep, commits }, Reply::Found(_)) => {
            lemma_relocated_pass(ledger, sweep, Seq::empty());
            lemma_copy_pass(ledger, sweep, sweep.scan.current.canonical, commits);
        },
        (Stage::Copy { sweep, current, rest, .. }, Reply::Commit(written)) => {
            lemma_relocated_pass(ledger, sweep, Seq::empty());
            if let Ok(copy) = written {
                let noted = Ledger { rewrites: ledger.rewrites.insert(current, copy), ..ledger };
                lemma_copy_pass(noted, sweep, copy, rest);
            }
        },
        _ => {},
    }
}

proof fn lemma_sweep_follows(run: Run, sweep: Sweep, reply: Reply)
    requires
        run.stage == Stage::Descends(sweep),
        answers(run.request(), reply),
    ensures
        may_follow(sweep.scan.pass, sweep.scan.pass.changed, run.advance(reply).0.stage),
{
    lemma_relocate_pass(run.ledger, sweep);
    lemma_sweep_pass(run.ledger, sweep.scan, sweep.rest, Seq::empty());
}

/// A pass that has moved a branch, or tried to, is followed by another one with its pattern. After
/// one with the first pattern that has not, those with the second begin; after one with the second
/// pattern that has not, the passes of the round are over.
pub proof fn passes_come_in_order(run: Run, reply: Reply)
    requires
        pass_of(run.stage) is Some,
        answers(run.request(), reply),
    ensures
        ({
            let pass = pass_of(run.stage)->0;
            may_follow(pass, pass.changed || is_moving(run.stage), run.advance(reply).0.stage)
        }),
{
    let pass = pass_of(run.stage)->0;
    if is_moving(run.stage) {
        lemma_move_follows(run, reply);
    } else if run.stage is WalkNames || run.stage is Walk {
        lemma_walk_follows(run, pass, reply);
    } else if let Stage::Descends(sweep) = run.stage {
        lemma_sweep_follows(run, sweep, reply);
    } else {
        lemma_scan_follows(run, reply);
    }
}

proof fn lemma_walked_pass(ledger: Ledger, goal: Goal, commits: Seq<Oid>)
    requires
        goal !is Pass,
    ensures
        pass_of(ledger.walked(goal, commits).0.stage) is None,
{
    lemma_tag_pass(ledger, seq![Effect::Print(nothing_to_do())]);
}

/// The first pass of a round has the first pattern. It begins once all temporary branches are made.
pub proof fn passes_begin_with_the_first_pattern(run: Run, reply: Reply)
    requires
        pass_of(run.stage) is None,
        pass_of(run.advance(reply).0.stage) is Some,
    ensures
        pass_of(run.advance(reply).0.stage) == Some(
            Pass { pattern: Pattern::Rebase, number: 1, changed: false },
        ),
        run.stage is Heads || run.stage is Branch,
        !run.ledger.options.dry_run ==> (run.stage matches Stage::Branch { rest, .. } ==> rest.len()
            == 0),
{
    let ledger = run.ledger;
    match (run.stage, reply) {
        (Stage::WalkNames(goal), Reply::Refs(_)) => {
            lemma_walked_pass(ledger, goal, Seq::empty());
        },
        (Stage::Walk { goal, .. }, Reply::Commits(Ok(commits))) => {
            lemma_walked_pass(ledger, goal, with_root(commits, ledger.root));
        },
        (Stage::Tag { tag, target, rest }, Reply::Found(Ok(_))) => {
            let moved = Effect::SetTag { name: trimmed(tag.name, "refs/tags/"@), target };
            lemma_tag(ledger, rest, seq![moved]);
        },
        _ => {},
    }
}

/// What keeps a branch from being moved does not end the run: where it stands, its commits, the
/// signature or a copy could not be had. Nothing is set then but references that are put back. Nor
/// does it end the run that a commit or a reference could not be looked up.
pub proof fn some_failures_are_borne(run: Run, error: Failure)
    ensures
        ({
            let reply = match run.request() {
                Request::Descendant { .. } => Reply::Answer(Err(error)),
                Request::FindRef(_) => Reply::Found(Err(error)),
                Request::PeelRef(_) => Reply::Commit(Err(error)),
                Request::WalkCommits { .. } => Reply::Commits(Err(error)),
                Request::TakeSignature => Reply::Found(Err(error)),
                _ => Reply::Commit(Err(error)),
            };
            let step = run.advance(reply);
            let borne = match run.request() {
                Request::Descendant { .. } => true,
                Request::FindRef(_) => true,
                Request::PeelRef(_) => true,
                Request::WalkCommits { .. } => true,
                Request::TakeSignature => true,
                Request::CopyCommit { .. } => true,
                _ => false,
            };
            borne ==> {
                &&& !(step.0.request() matches Request::Finished(Outcome::Failed(_)))
                &&& forall|i: int|
                    0 <= i < step.1.len() ==> ((#[trigger] step.1[i]) matches Effect::SetRef {
                        message,
                        ..
                    } ==> message == "rollback"@ || message == "rollback_dry_run"@)
            }
        }),
{
    let ledger = run.ledger;
    match run.stage {
        Stage::Descent { .. } => {},
        Stage::Candidate(scan) => {
            lemma_scan_sets(ledger, scan.pass, scan.rest);
        },
        Stage::Descends(sweep) => {
            lemma_sweep_sets(ledger, sweep.scan, sweep.rest);
        },
        Stage::Tip(sweep) => {
            lemma_relocated_sets(ledger, sweep);
        },
        Stage::Line { sweep, .. } => {
            lemma_relocated_sets(ledger, sweep);
        },
        Stage::Signature { sweep, .. } => {
            lemma_relocated_sets(ledger, sweep);
        },
        Stage::Copy { sweep, .. } => {
            lemma_relocated_sets(ledger, sweep);
        },
        _ => {},
    }
}

/// References are put back at most.
pub(crate) open spec fn is_calm(effects: Seq<Effect>) -> bool {
    forall|i: int|
        0 <= i < effects.len() ==> ((#[trigger] effects[i]) matches Effect::SetRef { message, .. }
            ==> message == "rollback"@ || message == "rollback_dry_run"@)
}

/// The step has not failed, and puts references back at most.
pub(crate) open spec fn is_borne(step: (Run, Seq<Effect>)) -> bool {
    &&& !(step.0.stage matches Stage::Finished(Outcome::Failed(_)))
    &&& forall|i: int|
        0 <= i < step.1.len() ==> ((#[trigger] step.1[i]) matches Effect::SetRef { message, .. }
            ==> message == "rollback"@ || message == "rollback_dry_run"@)
}

pub(crate) proof fn lemma_tag_sets(ledger: Ledger, tags: Seq<Ref>, effects: Seq<Effect>)
    requires
        forall|i: int| 0 <= i < effects.len() ==> (#[trigger] effects[i]) !is SetRef,
    ensures
        is_borne(ledger.tag(tags, effects)),
        is_calm(ledger.tag(tags, effects).1),
    decreases tags.len(),
{
    if tags.len() > 0 {
        lemma_tag_sets(ledger, tags.drop_first(), effects);
    }
}

pub(crate) proof fn lemma_scan_sets(ledger: Ledger, pass: Pass, pairs: Seq<Candidate>)
    ensures
        is_borne(ledger.scan(pass, pairs, Seq::empty())),
{
    let said = seq![Effect::Print(fixpoint(ledger.round)), Effect::Print(moving_tags())];
    lemma_tag_sets(ledger, tags_of(ledger.initial), said);
    let line = Seq::<Effect>::empty().push(Effect::Print(fixpoint(ledger.round)));
    assert(line.push(Effect::Print(moving_tags())) =~= said);
}

pub(crate) proof fn lemma_sweep_sets(ledger: Ledger, scan: Scan, heads: Seq<Ref>)
    ensures
        is_borne(ledger.sweep(scan, heads, Seq::empty())),
{
    lemma_scan_sets(ledger, scan.pass, scan.rest);
}

pub(crate) proof fn lemma_relocated_sets(ledger: Ledger, sweep: Sweep)
    ensures
        is_borne(ledger.relocated(sweep, Seq::empty())),
{
    let scan = Scan { pass: Pass { changed: true, ..sweep.scan.pass }, ..sweep.scan };
    lemma_sweep_sets(Ledger { changed: true, ..ledger }, scan, sweep.rest);
}

} // verus!
