//! What every run keeps to.
use vstd::prelude::*;
use crate::messages::Pattern;
use crate::model::{
    delete_branches, print_branching, print_left, print_plan, restore, start, succ, Effect, Goal,
    Ledger, Options, Outcome, Pass, Reply, Request, Run, Scan, Stage, Survey, Sweep,
};
use crate::oid::Oid;
use crate::refs::{
    is_keep, is_movable, is_temporary, keep_branch, movable, tags_of, temporary_branch,
    temporary_branches, Failure, Record, Ref,
};
use crate::laws::replay::replay;
use crate::rewrites::{target_of, Target};
use crate::text::{trimmed, Text};
use crate::walk::Candidate;

verus! {

/// The effect is a line that is printed.
pub open spec fn is_line(effect: Effect) -> bool {
    effect is Print || effect is Warn
}

/// The effect sets one of the references to the target that it has there.
pub open spec fn restores(refs: Seq<Ref>, effect: Effect) -> bool {
    effect matches Effect::SetRef { name, target, .. } && refs.contains(Ref { name, target })
}

/// What a run may do to the repository besides putting references back: it makes branches of its
/// own, moves branches that are not its own, moves tags if it was asked to, and deletes temporary
/// branches.
pub open spec fn changes(ledger: Ledger, effect: Effect) -> bool {
    match effect {
        Effect::CreateBranch { name, target } => name == temporary_branch(target) || name
            == keep_branch(target),
        Effect::SetRef { name, message, .. } => is_movable(name) && message
            == "rebase_branch_onto"@,
        Effect::SetTag { name, .. } => ledger.options.move_tags && exists|tag: Ref| #[trigger]
            tags_of(ledger.initial).contains(tag) && name == trimmed(tag.name, "refs/tags/"@),
        Effect::DeleteBranch { name } => "gto/"@.is_prefix_of(name),
        _ => false,
    }
}

/// The effect is one that a run may have.
pub open spec fn permitted(ledger: Ledger, effect: Effect) -> bool {
    ||| is_line(effect)
    ||| restores(ledger.initial, effect)
    ||| !ledger.options.dry_run && changes(ledger, effect)
}

/// The effects are ones that a run may have.
pub open spec fn all_permitted(ledger: Ledger, effects: Seq<Effect>) -> bool {
    forall|i: int| 0 <= i < effects.len() ==> permitted(ledger, #[trigger] effects[i])
}

/// The run has not yet passed the checks with which it begins.
pub open spec fn is_preflight(stage: Stage) -> bool {
    ||| stage is Worktree
    ||| stage is Root
    ||| stage is AllRefs
    ||| stage is Descent
}

/// The stage is one at which a run is about to write.
pub open spec fn is_writing(stage: Stage) -> bool {
    ||| stage is Branch
    ||| stage is KeepRef
    ||| stage is KeepCommit
    ||| stage is Tip
    ||| stage is Line
    ||| stage is Signature
    ||| stage is Copy
    ||| stage is Tag
    ||| stage is Stuck
    ||| stage is Cleanup
}

/// The rounds are over.
pub open spec fn is_closing(stage: Stage) -> bool {
    ||| stage is Tag
    ||| stage is Stuck
    ||| stage is Cleanup
    ||| stage matches Stage::Finished(Outcome::Success)
}

/// The branches of a sweep are such as a run may move.
pub open spec fn sweep_ok(sweep: Sweep) -> bool {
    &&& is_movable(sweep.head.name)
    &&& heads_ok(sweep.rest)
}

/// The branches are such as a run may move.
pub open spec fn heads_ok(heads: Seq<Ref>) -> bool {
    forall|i: int| 0 <= i < heads.len() ==> is_movable((#[trigger] heads[i]).name)
}

/// The branch at which the run looks is one that it may move.
pub open spec fn stage_ok(stage: Stage) -> bool {
    match stage {
        Stage::Descends(sweep) => sweep_ok(sweep),
        Stage::Tip(sweep) => sweep_ok(sweep),
        Stage::Line { sweep, .. } => sweep_ok(sweep),
        Stage::Signature { sweep, .. } => sweep_ok(sweep),
        Stage::Copy { sweep, .. } => sweep_ok(sweep),
        _ => true,
    }
}

/// The number of rounds is within the limit, unless the run has ended.
pub open spec fn rounds_ok(run: Run) -> bool {
    let limit = run.ledger.options.max_rounds;
    limit > 0 ==> run.ledger.round <= limit || run.stage matches Stage::Finished(Outcome::Exit(1))
}

/// The run still surveys the commits as it found them.
pub open spec fn is_initial(stage: Stage) -> bool {
    match stage {
        Stage::WalkNames(goal) => goal is Initial,
        Stage::Walk { goal, .. } => goal is Initial,
        Stage::Info { survey, .. } => survey is Initial,
        Stage::Depth { survey, .. } => survey is Initial,
        _ => false,
    }
}

/// A round has just begun.
pub open spec fn is_opening(stage: Stage) -> bool {
    match stage {
        Stage::WalkNames(goal) => goal is Round,
        Stage::Walk { goal, .. } => goal is Round,
        _ => false,
    }
}

/// The depth that a run is about to learn is one that it does not know.
pub open spec fn depth_ok(run: Run) -> bool {
    run.stage matches Stage::Depth { current, .. } ==> current != run.ledger.root
        && !run.ledger.depths.contains_key(current)
}

/// The tag that a run is about to move is one that it found, and it goes to another commit: to
/// where the rewrites of its commit end, or else to the canonical commit of a duplicate.
pub open spec fn tag_ok(run: Run) -> bool {
    run.stage matches Stage::Tag { tag, target, rest } ==> {
        &&& run.ledger.options.move_tags
        &&& tags_of(run.ledger.initial).contains(tag)
        &&& tags_ok(run.ledger, rest)
        &&& target_of(run.ledger.rewrites, run.ledger.duplicates, tag.target) == Target::Moves(
            target,
        )
        &&& target != tag.target
    }
}

/// The tags are ones that the run found.
pub open spec fn tags_ok(ledger: Ledger, tags: Seq<Ref>) -> bool {
    forall|i: int|
        0 <= i < tags.len() ==> tags_of(ledger.initial).contains(#[trigger] tags[i])
}

/// No commit is a duplicate of itself.
pub open spec fn duplicates_ok(ledger: Ledger) -> bool {
    forall|commit: Oid| #[trigger]
        ledger.duplicates.contains_key(commit) ==> ledger.duplicates[commit] != commit
}

/// The run has a reason to be refused: it has found no references above a root, or there may be no
/// more rounds.
pub open spec fn is_refusable(ledger: Ledger) -> bool {
    ledger.initial.len() == 0 || 0 < ledger.options.max_rounds < ledger.round
}

/// What holds of a run at all times: it looks only at branches that it may move; its rounds are
/// within the limit, or it has been refused; a dry run is never about to write, changes nothing
/// and has one round; tags move only if that was asked for; the rounds are over only after one
/// that has changed nothing; a refused run has exit code 1 and a reason; depths are counted
/// once.
pub open spec fn sound(run: Run) -> bool {
    &&& stage_ok(run.stage)
    &&& rounds_ok(run)
    &&& run.ledger.options.dry_run ==> !is_writing(run.stage) && !run.ledger.added
        && !run.ledger.changed && run.ledger.round <= 1
    &&& depth_ok(run)
    &&& tag_ok(run)
    &&& duplicates_ok(run.ledger)
    &&& is_opening(run.stage) || is_closing(run.stage) ==> !run.ledger.added && !run.ledger.changed
    &&& run.stage matches Stage::Finished(Outcome::Exit(code)) ==> code == 1 && is_refusable(
        run.ledger,
    )
    &&& is_preflight(run.stage) ==> run.ledger.initial.len() == 0
    &&& is_preflight(run.stage) || is_initial(run.stage) ==> run.ledger.round == 0
}

/// What a run has noted agrees with its options.
spec fn ledger_ok(ledger: Ledger) -> bool {
    &&& duplicates_ok(ledger)
    &&& ledger.options.dry_run ==> !ledger.added && !ledger.changed && ledger.round <= 1
    &&& ledger.options.max_rounds > 0 ==> ledger.round <= ledger.options.max_rounds
}

/// Each reference is put back to its target.
pub open spec fn restores_all(refs: Seq<Ref>, effects: Seq<Effect>, message: Text) -> bool {
    forall|r: Ref| #[trigger]
        refs.contains(r) ==> effects.contains(
            Effect::SetRef { name: r.name, target: r.target, message },
        )
}

/// The last effects put the references back, one after the other.
pub open spec fn ends_restoring(refs: Seq<Ref>, effects: Seq<Effect>, message: Text) -> bool {
    refs.len() <= effects.len() && effects.skip(effects.len() - refs.len()) == restore(refs, message)
}

/// The whole plan is printed.
pub open spec fn prints_all(plan: Seq<Text>, effects: Seq<Effect>) -> bool {
    forall|item: Text| #[trigger]
        plan.contains(item) ==> effects.contains(Effect::Print(crate::messages::plan_item(item)))
}

/// A step that ends a run for want of rounds puts all references back; so does one that ends a
/// dry run well, and it prints the plan.
pub open spec fn ending_ok(step: (Run, Seq<Effect>)) -> bool {
    let ledger = step.0.ledger;
    let limit = ledger.options.max_rounds;
    &&& !ledger.options.dry_run && 0 < limit < ledger.round ==> {
        &&& restores_all(ledger.initial, step.1, "rollback"@)
        &&& ends_restoring(ledger.initial, step.1, "rollback"@)
    }
    &&& ledger.options.dry_run && step.0.stage == Stage::Finished(Outcome::Success) ==> {
        &&& restores_all(ledger.initial, step.1, "rollback_dry_run"@)
        &&& prints_all(ledger.plan, step.1)
    }
}

/// What was noted in `before` is noted in `now`, and not otherwise.
pub open spec fn grows(before: Map<Oid, usize>, now: Map<Oid, usize>) -> bool {
    forall|commit: Oid| #[trigger]
        before.contains_key(commit) ==> now.contains_key(commit) && now[commit] == before[commit]
}

/// The run is moving a branch.
pub open spec fn is_moving(stage: Stage) -> bool {
    ||| stage is Tip
    ||| stage is Line
    ||| stage is Signature
    ||| stage is Copy
}

/// The round has moved a branch or made a temporary one, or is about to move one.
pub open spec fn is_unsettled(run: Run) -> bool {
    run.ledger.changed || run.ledger.added || is_moving(run.stage)
}

/// What the round has changed stays noted until the next round.
spec fn carries(ledger: Ledger, now: Ledger) -> bool {
    ledger.changed || ledger.added ==> now.changed || now.added || now.round == succ(ledger.round)
}

/// No tag is moved.
pub open spec fn is_untagged(effects: Seq<Effect>) -> bool {
    forall|i: int| 0 <= i < effects.len() ==> (#[trigger] effects[i]) !is SetTag
}

/// The rounds are over, for good or since the repository failed.
pub open spec fn is_past_rounds(stage: Stage) -> bool {
    is_closing(stage) || stage matches Stage::Finished(Outcome::Failed(_))
}

/// A step of a run that has passed its checks.
spec fn step_ok(ledger: Ledger, step: (Run, Seq<Effect>)) -> bool {
    &&& carries(ledger, step.0.ledger)
    &&& step.0.ledger.root == ledger.root
    &&& grows(ledger.depths, step.0.ledger.depths)
    &&& sound(step.0)
    &&& !is_preflight(step.0.stage)
    &&& step.0.ledger.options == ledger.options
    &&& step.0.ledger.initial == ledger.initial
    &&& all_permitted(ledger, step.1)
}

proof fn lemma_restore(ledger: Ledger, message: Text)
    ensures
        all_permitted(ledger, restore(ledger.initial, message)),
{
    let effects = restore(ledger.initial, message);
    assert forall|i: int| 0 <= i < effects.len() implies permitted(
        ledger,
        #[trigger] effects[i],
    ) by {
        let r = ledger.initial[i];
        assert(ledger.initial.contains(r));
        assert(effects[i] == Effect::SetRef { name: r.name, target: r.target, message });
        assert(Ref { name: r.name, target: r.target } == r);
    }
}

proof fn lemma_permitted_add(ledger: Ledger, a: Seq<Effect>, b: Seq<Effect>)
    requires
        all_permitted(ledger, a),
        all_permitted(ledger, b),
    ensures
        all_permitted(ledger, a + b),
{
}

proof fn lemma_restores_all(refs: Seq<Ref>, message: Text)
    ensures
        restores_all(refs, restore(refs, message), message),
{
    assert forall|r: Ref| #[trigger] refs.contains(r) implies restore(refs, message).contains(
        Effect::SetRef { name: r.name, target: r.target, message },
    ) by {
        let i = choose|i: int| 0 <= i < refs.len() && refs[i] == r;
        assert(restore(refs, message)[i] == Effect::SetRef {
            name: r.name,
            target: r.target,
            message,
        });
    }
}

proof fn lemma_begin_round(ledger: Ledger, effects: Seq<Effect>)
    requires
        ledger_ok(ledger),
        ledger.options.dry_run ==> ledger.round == 0,
        all_permitted(ledger, effects),
    ensures
        step_ok(ledger, ledger.begin_round(effects)),
        ending_ok(ledger.begin_round(effects)),
        is_untagged(effects) ==> is_untagged(ledger.begin_round(effects).1),
{
    lemma_restore(ledger, "rollback"@);
    lemma_restores_all(ledger.initial, "rollback"@);
    let round = succ(ledger.round);
    let said = effects.push(Effect::Print(crate::messages::round_begins(round)));
    let warned = said.push(
        Effect::Warn(crate::messages::too_many_rounds(ledger.options.max_rounds)),
    );
    let restored = restore(ledger.initial, "rollback"@);
    assert((warned + restored).skip(warned.len() as int) =~= restored);
    lemma_permitted_add(ledger, warned, restored);
    assert forall|e: Effect| restored.contains(e) implies #[trigger] (warned + restored).contains(
        e,
    ) by {
        let i = choose|i: int| 0 <= i < restored.len() && restored[i] == e;
        assert((warned + restored)[warned.len() + i] == e);
    }
}

proof fn lemma_tag(ledger: Ledger, tags: Seq<Ref>, effects: Seq<Effect>)
    requires
        ledger_ok(ledger),
        !ledger.options.dry_run,
        ledger.options.move_tags,
        tags_ok(ledger, tags),
        !ledger.added && !ledger.changed,
        all_permitted(ledger, effects),
    ensures
        step_ok(ledger, ledger.tag(tags, effects)),
        ending_ok(ledger.tag(tags, effects)),
        is_untagged(effects) ==> is_untagged(ledger.tag(tags, effects).1),
        is_past_rounds(ledger.tag(tags, effects).0.stage),
    decreases tags.len(),
{
    if tags.len() > 0 {
        lemma_tag(ledger, tags.drop_first(), effects);
    }
}

proof fn lemma_tags(ledger: Ledger, effects: Seq<Effect>)
    requires
        ledger_ok(ledger),
        !ledger.added && !ledger.changed,
        all_permitted(ledger, effects),
    ensures
        step_ok(ledger, ledger.tags(effects)),
        ending_ok(ledger.tags(effects)),
        is_untagged(effects) ==> is_untagged(ledger.tags(effects).1),
{
    let tags = tags_of(ledger.initial);
    assert(tags_ok(ledger, tags));
    if ledger.options.dry_run {
        lemma_restore(ledger, "rollback_dry_run"@);
        let begun = effects.push(Effect::Print(crate::messages::plan_begins()));
        lemma_permitted_add(ledger, begun, print_plan(ledger.plan));
        let planned = begun + print_plan(ledger.plan);
        let restored = restore(ledger.initial, "rollback_dry_run"@);
        lemma_permitted_add(ledger, planned, restored);
        let last = seq![Effect::Print(crate::messages::finished())];
        let all = planned + restored + last;
        lemma_restores_all(ledger.initial, "rollback_dry_run"@);
        assert forall|e: Effect| restored.contains(e) implies #[trigger] all.contains(e) by {
            let i = choose|i: int| 0 <= i < restored.len() && restored[i] == e;
            assert(all[planned.len() + i] == e);
        }
        assert forall|item: Text| #[trigger] ledger.plan.contains(item) implies all.contains(
            Effect::Print(crate::messages::plan_item(item)),
        ) by {
            let i = choose|i: int| 0 <= i < ledger.plan.len() && ledger.plan[i] == item;
            assert(all[begun.len() + i] == Effect::Print(crate::messages::plan_item(item)));
        }
    } else if ledger.options.move_tags {
        lemma_tag(ledger, tags, effects.push(Effect::Print(crate::messages::moving_tags())));
    } else {
        lemma_permitted_add(ledger, effects, print_left(tags, ledger.duplicates));
    }
}

proof fn lemma_scan(ledger: Ledger, pass: Pass, candidates: Seq<Candidate>, effects: Seq<Effect>)
    requires
        ledger_ok(ledger),
        all_permitted(ledger, effects),
    ensures
        step_ok(ledger, ledger.scan(pass, candidates, effects)),
        ending_ok(ledger.scan(pass, candidates, effects)),
        is_untagged(effects) ==> is_untagged(ledger.scan(pass, candidates, effects).1),
{
    if candidates.len() == 0 && !pass.changed && pass.pattern == Pattern::Shallow {
        if !ledger.changed && !ledger.added {
            lemma_tags(
                ledger,
                effects.push(Effect::Print(crate::messages::fixpoint(ledger.round))),
            );
        } else {
            lemma_begin_round(ledger, effects);
        }
    }
}

proof fn lemma_sweep(ledger: Ledger, scan: Scan, heads: Seq<Ref>, effects: Seq<Effect>)
    requires
        ledger_ok(ledger),
        heads_ok(heads),
        all_permitted(ledger, effects),
    ensures
        step_ok(ledger, ledger.sweep(scan, heads, effects)),
        ending_ok(ledger.sweep(scan, heads, effects)),
        is_untagged(effects) ==> is_untagged(ledger.sweep(scan, heads, effects).1),
{
    if heads.len() == 0 {
        lemma_scan(ledger, scan.pass, scan.rest, effects);
    }
}

proof fn lemma_relocated(ledger: Ledger, sweep: Sweep, effects: Seq<Effect>)
    requires
        ledger_ok(ledger),
        !ledger.options.dry_run,
        sweep_ok(sweep),
        all_permitted(ledger, effects),
    ensures
        step_ok(ledger, ledger.relocated(sweep, effects)),
        ending_ok(ledger.relocated(sweep, effects)),
        is_untagged(effects) ==> is_untagged(ledger.relocated(sweep, effects).1),
        ({
            let now = ledger.relocated(sweep, effects).0.ledger;
            now.changed || now.added || now.round == succ(ledger.round)
        }),
{
    let scan = Scan { pass: Pass { changed: true, ..sweep.scan.pass }, ..sweep.scan };
    lemma_sweep(Ledger { changed: true, ..ledger }, scan, sweep.rest, effects);
}

proof fn lemma_copy(ledger: Ledger, sweep: Sweep, parent: Oid, commits: Seq<Oid>)
    requires
        ledger_ok(ledger),
        !ledger.options.dry_run,
        sweep_ok(sweep),
    ensures
        step_ok(ledger, ledger.copy(sweep, parent, commits)),
        ending_ok(ledger.copy(sweep, parent, commits)),
        is_untagged(ledger.copy(sweep, parent, commits).1),
        ({
            let now = ledger.copy(sweep, parent, commits).0;
            is_unsettled(now) || now.ledger.round == succ(ledger.round)
        }),
{
    if commits.len() == 0 {
        let moved = Effect::SetRef {
            name: sweep.head.name,
            target: parent,
            message: "rebase_branch_onto"@,
        };
        lemma_relocated(ledger, sweep, seq![moved]);
    }
}

proof fn lemma_branch(ledger: Ledger, missing: Seq<Oid>, effects: Seq<Effect>)
    requires
        ledger_ok(ledger),
        all_permitted(ledger, effects),
    ensures
        step_ok(ledger, ledger.branch(missing, effects)),
        ending_ok(ledger.branch(missing, effects)),
        is_untagged(effects) ==> is_untagged(ledger.branch(missing, effects).1),
{
    lemma_permitted_add(ledger, effects, print_branching(missing));
}

proof fn lemma_survey(
    ledger: Ledger,
    survey: Survey,
    done: Seq<crate::canonical::CommitInfo>,
    commits: Seq<Oid>,
)
    requires
        ledger_ok(ledger),
        survey is Initial ==> ledger.round == 0,
    ensures
        step_ok(ledger, ledger.survey(survey, done, commits)),
        ending_ok(ledger.survey(survey, done, commits)),
        is_untagged(ledger.survey(survey, done, commits).1),
{
    if commits.len() == 0 && survey is Initial {
        lemma_begin_round(
            Ledger { duplicates: crate::canonical::duplicates(done), ..ledger },
            Seq::empty(),
        );
    }
}

proof fn lemma_walked(ledger: Ledger, goal: Goal, commits: Seq<Oid>)
    requires
        ledger_ok(ledger),
        goal is Initial ==> ledger.round == 0,
        goal is Round ==> !ledger.added && !ledger.changed,
    ensures
        step_ok(ledger, ledger.walked(goal, commits)),
        ending_ok(ledger.walked(goal, commits)),
        is_untagged(ledger.walked(goal, commits).1),
{
    match goal {
        Goal::Initial => {
            lemma_survey(ledger, Survey::Initial, Seq::empty(), commits);
        },
        Goal::Round => {
            lemma_tags(ledger, seq![Effect::Print(crate::messages::nothing_to_do())]);
        },
        Goal::Canonicals => {
            lemma_survey(ledger, Survey::Round, Seq::empty(), commits);
        },
        Goal::Pass(pass) => {
            lemma_scan(
                ledger,
                pass,
                crate::walk::candidates(commits, ledger.canonicals, ledger.root),
                Seq::empty(),
            );
        },
    }
}

/// A name with the prefix of temporary branches loses `refs/heads/` and nothing more.
pub(crate) proof fn lemma_temporary_trimmed(name: Text)
    requires
        is_temporary(name),
    ensures
        trimmed(name, "refs/heads/"@) == name.skip(11),
        "gto/"@.is_prefix_of(name.skip(11)),
        !is_keep(name),
{
    reveal_strlit("refs/heads/");
    reveal_strlit("refs/heads/gto/");
    reveal_strlit("refs/heads/gto-keep/");
    reveal_strlit("gto/");
    let prefix = "refs/heads/gto/"@;
    let rest = name.skip(11);
    assert forall|i: int| 0 <= i < 15 implies name[i] == prefix[i] by {
        assert(name.take(15)[i] == prefix[i]);
    }
    assert("refs/heads/"@ =~= name.take(11));
    assert("gto/"@ =~= rest.take(4));
    assert(rest[0] == 'g');
    assert("refs/heads/"@[0] == 'r');
    assert(!"refs/heads/"@.is_prefix_of(rest)) by {
        if "refs/heads/"@.is_prefix_of(rest) {
            assert(rest.take(11)[0] == "refs/heads/"@[0]);
        }
    }
    assert(trimmed(rest, "refs/heads/"@) == rest);
    assert(!is_keep(name)) by {
        if is_keep(name) {
            assert(name.take(20)[14] == "refs/heads/gto-keep/"@[14]);
        }
    }
}

pub(crate) proof fn lemma_temporary_branches(records: Seq<Result<Record, Failure>>)
    ensures
        forall|i: int|
            0 <= i < temporary_branches(records).len() ==> "gto/"@.is_prefix_of(
                #[trigger] temporary_branches(records)[i],
            ),
    decreases records.len(),
{
    if records.len() > 0 {
        let before = temporary_branches(records.drop_last());
        let now = temporary_branches(records);
        lemma_temporary_branches(records.drop_last());
        assert forall|i: int| 0 <= i < now.len() implies "gto/"@.is_prefix_of(
            #[trigger] now[i],
        ) by {
            if i < before.len() {
                assert(now[i] == before[i]);
            } else {
                lemma_temporary_trimmed(records.last()->Ok_0.name->Some_0);
            }
        }
    }
}

proof fn lemma_movable(refs: Seq<Ref>, commit: Oid)
    ensures
        heads_ok(movable(refs, commit)),
{
    broadcast use vstd::seq_lib::group_seq_properties;

    let wanted = |r: Ref| is_movable(r.name) && r.target != commit;
    assert(movable(refs, commit) == refs.filter(wanted));
    assert forall|i: int| 0 <= i < refs.filter(wanted).len() implies is_movable(
        (#[trigger] refs.filter(wanted)[i]).name,
    ) by {
        refs.lemma_filter_pred(wanted, i);
    }
}

/// A step of a run that has not yet passed its checks.
spec fn preflight_ok(ledger: Ledger, step: (Run, Seq<Effect>)) -> bool {
    &&& sound(step.0)
    &&& step.0.ledger.options == ledger.options
    &&& step.0.ledger.round == ledger.round
    &&& step.0.ledger.added == ledger.added
    &&& step.0.ledger.changed == ledger.changed
    &&& step.0.stage != Stage::Finished(Outcome::Success)
    &&& is_untagged(step.1)
    &&& forall|i: int| 0 <= i < step.1.len() ==> is_line(#[trigger] step.1[i])
}

proof fn lemma_preflight(run: Run, reply: Reply)
    requires
        sound(run),
        is_preflight(run.stage),
    ensures
        preflight_ok(run.ledger, run.advance(reply)),
{
}

/// What holds of a step of a run that has passed its checks.
spec fn advance_ok(run: Run, reply: Reply) -> bool {
    let step = run.advance(reply);
    &&& step_ok(run.ledger, step)
    &&& run.stage !is Finished ==> ending_ok(step)
    &&& run.stage !is Tag ==> is_untagged(step.1)
    &&& is_past_rounds(run.stage) ==> is_past_rounds(step.0.stage)
    &&& is_unsettled(run) ==> is_unsettled(step.0) || step.0.ledger.round == succ(run.ledger.round)
}

proof fn lemma_explored(run: Run, reply: Reply)
    requires
        sound(run),
        run.stage is WalkNames || run.stage is Walk
            || run.stage is Info || run.stage is Depth,
    ensures
        advance_ok(run, reply),
{
    let ledger = run.ledger;
    assert(run.stage !is Finished ==> ledger_ok(ledger));
    match (run.stage, reply) {
        (Stage::WalkNames(goal), Reply::Refs(_)) => {
            lemma_walked(ledger, goal, Seq::empty());
        },
        (Stage::Walk { goal, .. }, Reply::Commits(Ok(commits))) => {
            lemma_walked(ledger, goal, crate::walk::with_root(commits, ledger.root));
        },
        (Stage::Info { survey, done, current, rest }, Reply::TreeAndDate(Ok((tree, date)))) => {
            lemma_survey(
                ledger,
                survey,
                done.push(
                    crate::canonical::CommitInfo {
                        tree_id: tree,
                        depth: 0,
                        cdate: date,
                        oid: current,
                    },
                ),
                rest,
            );
            lemma_survey(
                ledger,
                survey,
                done.push(
                    crate::canonical::CommitInfo {
                        tree_id: tree,
                        depth: ledger.depths[current],
                        cdate: date,
                        oid: current,
                    },
                ),
                rest,
            );
        },
        (Stage::Depth { survey, done, current, rest, tree, date }, Reply::Count(Ok(depth))) => {
            lemma_survey(
                Ledger { depths: ledger.depths.insert(current, depth), ..ledger },
                survey,
                done.push(
                    crate::canonical::CommitInfo { tree_id: tree, depth, cdate: date, oid: current },
                ),
                rest,
            );
        },
        _ => {},
    }
}

proof fn lemma_passed(run: Run, reply: Reply)
    requires
        sound(run),
        run.stage is Heads || run.stage is Branch || run.stage is Candidate || run.stage is KeepRef
            || run.stage is KeepCommit || run.stage is Branches || run.stage is Descends,
    ensures
        advance_ok(run, reply),
{
    let ledger = run.ledger;
    assert(run.stage !is Finished ==> ledger_ok(ledger));
    match (run.stage, reply) {
        (Stage::Heads { shared }, Reply::Refs(refs)) => {
            if let Ok(refs) = crate::model::listed(refs) {
                lemma_branch(
                    ledger,
                    crate::refs::unbranched(shared, refs, ledger.root),
                    Seq::empty(),
                );
            }
        },
        (Stage::Branch { current, rest }, Reply::Found(Ok(_))) => {
            lemma_branch(
                Ledger {
                    added: true,
                    plan: ledger.plan.push(crate::messages::branching_plan(current)),
                    ..ledger
                },
                rest,
                seq![Effect::CreateBranch { name: temporary_branch(current), target: current }],
            );
        },
        (Stage::Candidate(scan), Reply::Answer(_)) => {
            lemma_scan(ledger, scan.pass, scan.rest, Seq::empty());
        },
        (Stage::Branches(scan), Reply::Refs(refs)) => {
            if let Ok(refs) = crate::model::listed(refs) {
                lemma_movable(refs, scan.current.commit);
                lemma_sweep(ledger, scan, movable(refs, scan.current.commit), Seq::empty());
            }
        },
        (Stage::Descends(sweep), Reply::Answer(_)) => {
            let pass = sweep.scan.pass;
            let spot = sweep.scan.current;
            lemma_sweep(ledger, sweep.scan, sweep.rest, Seq::empty());
            lemma_sweep(
                Ledger {
                    plan: ledger.plan.push(
                        crate::messages::moving_plan(
                            pass.pattern,
                            sweep.head.name,
                            spot.canonical,
                            spot.commit,
                        ),
                    ),
                    ..ledger
                },
                sweep.scan,
                sweep.rest,
                seq![
                    Effect::Print(
                        crate::messages::moving(
                            pass.pattern,
                            ledger.round,
                            pass.number,
                            sweep.head.name,
                            spot.canonical,
                        ),
                    ),
                ],
            );
        },
        _ => {},
    }
}

proof fn lemma_moved(run: Run, reply: Reply)
    requires
        sound(run),
        run.stage is Tip || run.stage is Line || run.stage is Signature || run.stage is Copy,
    ensures
        advance_ok(run, reply),
{
    let ledger = run.ledger;
    assert(run.stage !is Finished ==> ledger_ok(ledger));
    match (run.stage, reply) {
        (Stage::Tip(sweep), Reply::Commit(_)) => {
            lemma_relocated(ledger, sweep, Seq::empty());
        },
        (Stage::Line { sweep, .. }, Reply::Commits(_)) => {
            lemma_relocated(ledger, sweep, Seq::empty());
        },
        (Stage::Signature { sweep, commits }, Reply::Found(_)) => {
            lemma_relocated(ledger, sweep, Seq::empty());
            lemma_copy(ledger, sweep, sweep.scan.current.canonical, commits);
        },
        (Stage::Copy { sweep, current, rest, .. }, Reply::Commit(commit)) => {
            lemma_relocated(ledger, sweep, Seq::empty());
            if let Ok(copied) = commit {
                lemma_copy(
                    Ledger { rewrites: ledger.rewrites.insert(current, copied), ..ledger },
                    sweep,
                    copied,
                    rest,
                );
            }
        },
        _ => {},
    }
}

proof fn lemma_closed(run: Run, reply: Reply)
    requires
        sound(run),
        run.stage is Tag || run.stage is Stuck
            || run.stage is Cleanup || run.stage is Finished,
    ensures
        advance_ok(run, reply),
{
    let ledger = run.ledger;
    assert(run.stage !is Finished ==> ledger_ok(ledger));
    match (run.stage, reply) {
        (Stage::Tag { tag, target, rest }, Reply::Found(Ok(_))) => {
            assert(tags_of(ledger.initial).contains(tag));
            lemma_tag(
                ledger,
                rest,
                seq![Effect::SetTag { name: trimmed(tag.name, "refs/tags/"@), target }],
            );
        },
        (Stage::Cleanup, Reply::Refs(refs)) => {
            let names = match refs {
                Ok(records) => temporary_branches(records),
                Err(_) => Seq::empty(),
            };
            if let Ok(records) = refs {
                lemma_temporary_branches(records);
            }
            let deleted = delete_branches(names);
            assert forall|i: int| 0 <= i < deleted.len() implies permitted(
                ledger,
                #[trigger] deleted[i],
            ) by {
                assert(deleted[i] == Effect::DeleteBranch { name: names[i] });
            }
        },
        _ => {},
    }
}

proof fn lemma_advance(run: Run, reply: Reply)
    requires
        sound(run),
        !is_preflight(run.stage),
    ensures
        advance_ok(run, reply),
{
    match run.stage {
        Stage::WalkNames(_) => {
            lemma_explored(run, reply);
        },
        Stage::Walk { .. } => {
            lemma_explored(run, reply);
        },
        Stage::Info { .. } => {
            lemma_explored(run, reply);
        },
        Stage::Depth { .. } => {
            lemma_explored(run, reply);
        },
        Stage::Heads { .. } => {
            lemma_passed(run, reply);
        },
        Stage::Branch { .. } => {
            lemma_passed(run, reply);
        },
        Stage::Candidate(_) => {
            lemma_passed(run, reply);
        },
        Stage::KeepRef(_) => {
            lemma_passed(run, reply);
        },
        Stage::KeepCommit(_) => {
            lemma_passed(run, reply);
        },
        Stage::Branches(_) => {
            lemma_passed(run, reply);
        },
        Stage::Descends(_) => {
            lemma_passed(run, reply);
        },
        Stage::Tip(_) => {
            lemma_moved(run, reply);
        },
        Stage::Line { .. } => {
            lemma_moved(run, reply);
        },
        Stage::Signature { .. } => {
            lemma_moved(run, reply);
        },
        Stage::Copy { .. } => {
            lemma_moved(run, reply);
        },
        _ => {
            lemma_closed(run, reply);
        },
    }
}

/// A run is sound from its start on.
pub proof fn runs_are_sound(options: Options, root: Oid, replies: Seq<Reply>)
    ensures
        sound(replay(start(options, root), replies).0),
        replay(start(options, root), replies).0.ledger.options == options,
    decreases replies.len(),
{
    if replies.len() > 0 {
        runs_are_sound(options, root, replies.drop_last());
        let before = replay(start(options, root), replies.drop_last()).0;
        if is_preflight(before.stage) {
            lemma_preflight(before, replies.last());
        } else {
            lemma_advance(before, replies.last());
        }
    }
}

/// Before a run has passed the checks with which it begins, it does nothing but print.
pub proof fn checks_come_first(options: Options, root: Oid, replies: Seq<Reply>)
    requires
        is_preflight(replay(start(options, root), replies).0.stage),
    ensures
        forall|i: int|
            0 <= i < replay(start(options, root), replies).1.len() ==> is_line(
                #[trigger] replay(start(options, root), replies).1[i],
            ),
    decreases replies.len(),
{
    if replies.len() > 0 {
        let before = replay(start(options, root), replies.drop_last()).0;
        runs_are_sound(options, root, replies.drop_last());
        if is_preflight(before.stage) {
            checks_come_first(options, root, replies.drop_last());
            lemma_preflight(before, replies.last());
        } else {
            lemma_advance(before, replies.last());
        }
    }
}

/// Whatever a run is told, it prints, puts references back to where it found them, or, unless it
/// is a dry run, makes branches of its own, moves branches that are not its own, moves tags if it
/// was asked to, and deletes temporary branches.
pub proof fn effects_are_permitted(options: Options, root: Oid, replies: Seq<Reply>)
    ensures
        all_permitted(
            replay(start(options, root), replies).0.ledger,
            replay(start(options, root), replies).1,
        ),
    decreases replies.len(),
{
    if replies.len() > 0 {
        let (before, earlier) = replay(start(options, root), replies.drop_last());
        let step = before.advance(replies.last());
        effects_are_permitted(options, root, replies.drop_last());
        runs_are_sound(options, root, replies.drop_last());
        if is_preflight(before.stage) {
            checks_come_first(options, root, replies.drop_last());
            lemma_preflight(before, replies.last());
        } else {
            lemma_advance(before, replies.last());
        }
        assert forall|i: int| 0 <= i < (earlier + step.1).len() implies permitted(
            step.0.ledger,
            #[trigger] (earlier + step.1)[i],
        ) by {
            if i < earlier.len() {
                assert((earlier + step.1)[i] == earlier[i]);
            } else {
                assert((earlier + step.1)[i] == step.1[i - earlier.len()]);
            }
        }
    }
}

/// A dry run changes nothing: it prints, and sets references to the targets at which it found
/// them. It never asks for a commit to be written.
pub proof fn dry_runs_change_nothing(options: Options, root: Oid, replies: Seq<Reply>)
    requires
        options.dry_run,
    ensures
        ({
            let (run, effects) = replay(start(options, root), replies);
            &&& forall|i: int|
                0 <= i < effects.len() ==> is_line(#[trigger] effects[i]) || restores(
                    run.ledger.initial,
                    effects[i],
                )
            &&& run.request() !is CopyCommit
        }),
{
    effects_are_permitted(options, root, replies);
    runs_are_sound(options, root, replies);
    let (run, effects) = replay(start(options, root), replies);
    assert forall|i: int| 0 <= i < effects.len() implies is_line(#[trigger] effects[i])
        || restores(run.ledger.initial, effects[i]) by {
        assert(permitted(run.ledger, effects[i]));
    }
}

/// Tags move only in a run that was asked to move them and is not dry.
pub proof fn tags_move_on_demand(options: Options, root: Oid, replies: Seq<Reply>, i: int)
    requires
        0 <= i < replay(start(options, root), replies).1.len(),
        replay(start(options, root), replies).1[i] is SetTag,
    ensures
        options.move_tags && !options.dry_run,
{
    effects_are_permitted(options, root, replies);
    runs_are_sound(options, root, replies);
    let (run, effects) = replay(start(options, root), replies);
    assert(permitted(run.ledger, effects[i]));
}

/// A run deletes no branch but temporary ones, and so none that keeps commits reachable.
pub proof fn only_temporary_branches_go(
    options: Options,
    root: Oid,
    replies: Seq<Reply>,
    i: int,
    name: Text,
)
    requires
        0 <= i < replay(start(options, root), replies).1.len(),
        replay(start(options, root), replies).1[i] == (Effect::DeleteBranch { name }),
    ensures
        "gto/"@.is_prefix_of(name),
        !"gto-keep/"@.is_prefix_of(name),
        !options.dry_run,
{
    effects_are_permitted(options, root, replies);
    runs_are_sound(options, root, replies);
    let (run, effects) = replay(start(options, root), replies);
    assert(permitted(run.ledger, effects[i]));
    reveal_strlit("gto/");
    reveal_strlit("gto-keep/");
    if "gto-keep/"@.is_prefix_of(name) {
        assert(name.take(4)[3] == "gto/"@[3]);
        assert(name.take(9)[3] == "gto-keep/"@[3]);
    }
}

/// A reference that a run sets is put back to where the run found it, or it is a branch, and none
/// of the run's own.
pub proof fn only_movable_branches_move(
    options: Options,
    root: Oid,
    replies: Seq<Reply>,
    i: int,
    name: Text,
    target: Oid,
    message: Text,
)
    requires
        0 <= i < replay(start(options, root), replies).1.len(),
        replay(start(options, root), replies).1[i] == (Effect::SetRef { name, target, message }),
    ensures
        replay(start(options, root), replies).0.ledger.initial.contains(Ref { name, target }) || (
        !options.dry_run && is_movable(name)),
{
    effects_are_permitted(options, root, replies);
    runs_are_sound(options, root, replies);
    let (run, effects) = replay(start(options, root), replies);
    assert(permitted(run.ledger, effects[i]));
}

/// No tag is moved before the rounds are over. So a run that is refused, be it for want of rounds,
/// has moved no tag.
pub proof fn tags_wait_for_the_rounds(options: Options, root: Oid, replies: Seq<Reply>)
    ensures
        ({
            let (run, effects) = replay(start(options, root), replies);
            &&& is_past_rounds(run.stage) || is_untagged(effects)
            &&& run.request() matches Request::Finished(Outcome::Exit(_)) ==> is_untagged(effects)
        }),
    decreases replies.len(),
{
    if replies.len() > 0 {
        let (before, earlier) = replay(start(options, root), replies.drop_last());
        let step = before.advance(replies.last());
        tags_wait_for_the_rounds(options, root, replies.drop_last());
        runs_are_sound(options, root, replies.drop_last());
        if is_preflight(before.stage) {
            lemma_preflight(before, replies.last());
        } else {
            lemma_advance(before, replies.last());
        }
        if is_untagged(earlier) && is_untagged(step.1) {
            assert forall|i: int| 0 <= i < (earlier + step.1).len() implies (#[trigger] (earlier
                + step.1)[i]) !is SetTag by {
                if i < earlier.len() {
                    assert((earlier + step.1)[i] == earlier[i]);
                } else {
                    assert((earlier + step.1)[i] == step.1[i - earlier.len()]);
                }
            }
        }
    }
}

/// A run is refused only if it has found no references above a root, or if there may be no more
/// rounds. Where the number of rounds is not limited, and in a dry run, it is only the former.
pub proof fn refusals_have_reasons(options: Options, root: Oid, replies: Seq<Reply>)
    requires
        replay(start(options, root), replies).0.request() matches Request::Finished(
            Outcome::Exit(_),
        ),
    ensures
        ({
            let ledger = replay(start(options, root), replies).0.ledger;
            &&& ledger.initial.len() == 0 || 0 < options.max_rounds < ledger.round
            &&& options.max_rounds == 0 || options.dry_run ==> ledger.initial.len() == 0
        }),
{
    runs_are_sound(options, root, replies);
}

/// Where the number of rounds is limited, no more rounds begin: the run is refused instead.
pub proof fn rounds_are_limited(options: Options, root: Oid, replies: Seq<Reply>)
    requires
        options.max_rounds > 0,
    ensures
        ({
            let run = replay(start(options, root), replies).0;
            run.ledger.round <= options.max_rounds || run.request() == Request::Finished(
                Outcome::Exit(1),
            )
        }),
{
    runs_are_sound(options, root, replies);
}

/// A run that succeeds has reached a fixpoint: its last round has made no temporary branch and
/// moved no branch.
pub proof fn success_is_a_fixpoint(options: Options, root: Oid, replies: Seq<Reply>)
    requires
        replay(start(options, root), replies).0.request() == Request::Finished(Outcome::Success),
    ensures
        !replay(start(options, root), replies).0.ledger.added,
        !replay(start(options, root), replies).0.ledger.changed,
{
    runs_are_sound(options, root, replies);
}

/// A round that has moved a branch, or made a temporary one, or is about to move one, is not the
/// last: the run stays unsettled until it begins another round or is refused one, and an unsettled
/// run has not succeeded.
pub proof fn moves_lead_to_another_round(
    options: Options,
    root: Oid,
    replies: Seq<Reply>,
    reply: Reply,
)
    ensures
        ({
            let before = replay(start(options, root), replies).0;
            let now = before.advance(reply).0;
            &&& is_unsettled(before) ==> is_unsettled(now) || now.ledger.round == succ(
                before.ledger.round,
            )
            &&& is_unsettled(before) ==> before.request() != Request::Finished(Outcome::Success)
        }),
{
    runs_are_sound(options, root, replies);
    let before = replay(start(options, root), replies).0;
    if is_preflight(before.stage) {
        lemma_preflight(before, reply);
    } else {
        lemma_advance(before, reply);
    }
}

/// A dry run has one round.
pub proof fn dry_runs_have_one_round(options: Options, root: Oid, replies: Seq<Reply>)
    requires
        options.dry_run,
    ensures
        replay(start(options, root), replies).0.ledger.round <= 1,
{
    runs_are_sound(options, root, replies);
}

/// A run that ends for want of rounds puts all references back to where it found them, and does
/// nothing after that.
pub proof fn giving_up_restores(options: Options, root: Oid, replies: Seq<Reply>, reply: Reply)
    requires
        !options.dry_run,
        replay(start(options, root), replies).0.request() !is Finished,
        0 < options.max_rounds < replay(start(options, root), replies).0.advance(
            reply,
        ).0.ledger.round,
    ensures
        ({
            let step = replay(start(options, root), replies).0.advance(reply);
            &&& step.0.request() == Request::Finished(Outcome::Exit(1))
            &&& restores_all(step.0.ledger.initial, step.1, "rollback"@)
            &&& ends_restoring(step.0.ledger.initial, step.1, "rollback"@)
        }),
{
    runs_are_sound(options, root, replies);
    let before = replay(start(options, root), replies).0;
    if is_preflight(before.stage) {
        lemma_preflight(before, reply);
    } else {
        lemma_advance(before, reply);
    }
}

/// A dry run that ends well puts all references back to where it found them, and prints its plan.
pub proof fn dry_runs_end_with_the_plan(
    options: Options,
    root: Oid,
    replies: Seq<Reply>,
    reply: Reply,
)
    requires
        options.dry_run,
        replay(start(options, root), replies).0.request() !is Finished,
        replay(start(options, root), replies).0.advance(reply).0.request() == Request::Finished(
            Outcome::Success,
        ),
    ensures
        ({
            let step = replay(start(options, root), replies).0.advance(reply);
            &&& restores_all(step.0.ledger.initial, step.1, "rollback_dry_run"@)
            &&& prints_all(step.0.ledger.plan, step.1)
        }),
{
    runs_are_sound(options, root, replies);
    let before = replay(start(options, root), replies).0;
    if is_preflight(before.stage) {
        lemma_preflight(before, reply);
    } else {
        lemma_advance(before, reply);
    }
}

/// Once a run has passed the checks with which it begins, its root and the references that it
/// found stay the same.
pub proof fn findings_stay(options: Options, root: Oid, replies: Seq<Reply>, reply: Reply)
    requires
        !is_preflight(replay(start(options, root), replies).0.stage),
    ensures
        ({
            let before = replay(start(options, root), replies).0;
            let now = before.advance(reply).0;
            &&& now.ledger.root == before.ledger.root
            &&& now.ledger.initial == before.ledger.initial
            &&& !is_preflight(now.stage)
        }),
{
    runs_are_sound(options, root, replies);
    lemma_advance(replay(start(options, root), replies).0, reply);
}

/// The depth of a commit is counted once, that of the root never, and a depth that was counted
/// stays.
pub proof fn depths_are_counted_once(options: Options, root: Oid, replies: Seq<Reply>, reply: Reply)
    ensures
        ({
            let before = replay(start(options, root), replies).0;
            let now = before.advance(reply).0;
            &&& before.request() matches Request::CountCommits { from, .. } ==> from
                != before.ledger.root && !before.ledger.depths.contains_key(from)
            &&& grows(before.ledger.depths, now.ledger.depths)
        }),
{
    runs_are_sound(options, root, replies);
    let before = replay(start(options, root), replies).0;
    if is_preflight(before.stage) {
        lemma_preflight(before, reply);
    } else {
        lemma_advance(before, reply);
    }
}

/// A run that has ended stays as it is.
pub proof fn the_end_is_the_end(run: Run, reply: Reply)
    requires
        run.request() is Finished,
    ensures
        run.advance(reply) == (run, Seq::<Effect>::empty()),
{
}

} // verus!
