//! What the plan of a dry run holds.
use vstd::prelude::*;
use crate::canonical::{
    canonicals, groups, ids, known, lemma_distinct, lemma_known, shared_of, CommitInfo,
};
use crate::laws::canon::{
    lemma_canonicals, lemma_in_play, lemma_precedes, lemma_stands_for,
    one_commit_stands_for_another,
};
use crate::laws::choosing::{lemma_shared_known, lemma_two_are_shared};
use crate::laws::converging::{
    chosen_ok, covers, is_due, is_in_round, is_left, is_left_in, is_queued, lemma_candidates,
    lemma_chosen, lemma_covers, lemma_walk_names, pairs_ok, queue, scan_due,
};
use crate::laws::naming::names_are_told_by_how_they_begin;
use crate::laws::preserving::{
    dry_runs_leave_references_alone, grounded, infos_ok, lemma_grounded, lemma_infos,
};
use crate::laws::replay::replay;
use crate::laws::soundness::{runs_are_sound, stage_ok, the_end_is_the_end};
use crate::laws::world::{holds, is_walked, lemma_course, lemma_listed, Refs, World};
use crate::messages::{
    branching_plan, fixpoint, keeping_plan, moving, moving_plan, nothing_to_do, plan_begins,
    Pattern,
};
use crate::model::{
    print_plan, start, Effect, Goal, Ledger, Options, Outcome, Pass, Reply, Request, Run, Scan,
    Stage, Survey,
};
use crate::oid::{hex, Oid};
use crate::refs::{
    has_head, is_head, is_movable, is_tag, is_unbranched, local_refs, movable, unbranched, Failure,
    Ref,
};
use crate::text::Text;
use crate::walk::{candidates, other_than, others, with_root, Candidate};
use crate::laws::wording::lines_name_commits_and_branches;

verus! {

/// The pattern by which branches move from a duplicate.
spec fn pattern_of(world: World, chosen: Map<Oid, Oid>, c: Oid) -> Pattern {
    if world.descends(c, chosen[c]) {
        Pattern::Shallow
    } else {
        Pattern::Rebase
    }
}

/// The plan has the move of a branch from a duplicate.
spec fn has_move(
    world: World,
    chosen: Map<Oid, Oid>,
    plan: Seq<Text>,
    name: Text,
    c: Oid,
) -> bool {
    plan.contains(moving_plan(pattern_of(world, chosen, c), name, chosen[c], c))
}

/// The plan has a branch that keeps a duplicate.
spec fn has_keeping(world: World, chosen: Map<Oid, Oid>, plan: Seq<Text>, c: Oid) -> bool {
    plan.contains(keeping_plan(pattern_of(world, chosen, c), c))
}

/// The plan has all that is to be done about a duplicate.
spec fn is_planned(
    world: World,
    refs: Refs,
    chosen: Map<Oid, Oid>,
    plan: Seq<Text>,
    c: Oid,
) -> bool {
    &&& has_keeping(world, chosen, plan, c)
    &&& forall|name: Text| #[trigger]
        refs.contains_key(name) && is_movable(name) && world.descends(refs[name], c) ==> has_move(
            world,
            chosen,
            plan,
            name,
            c,
        )
}

/// The commit is not the root, and shares its tree with another.
pub(crate) open spec fn is_shared(world: World, refs: Refs, c: Oid) -> bool {
    &&& c != world.root
    &&& world.is_in_scope(refs, c)
    &&& exists|d: Oid| #[trigger]
        world.is_in_scope(refs, d) && d != c && (world.tree)(d) == (world.tree)(c)
}

/// A branch stands at the commit.
pub(crate) open spec fn is_manned(refs: Refs, c: Oid) -> bool {
    exists|name: Text| #[trigger] refs.contains_key(name) && is_head(name) && refs[name] == c
}

/// The plan has branches for all commits that share their trees.
spec fn mans(world: World, refs: Refs, plan: Seq<Text>) -> bool {
    forall|c: Oid| #[trigger]
        is_shared(world, refs, c) && !is_manned(refs, c) ==> plan.contains(branching_plan(c))
}

/// The canonical commits stand for theirs.
spec fn is_exact(world: World, refs: Refs, chosen: Map<Oid, Oid>) -> bool {
    &&& chosen_ok(world, refs, chosen)
    &&& forall|c: Oid| #[trigger]
        chosen.contains_key(c) ==> world.stands_for(refs, chosen[c], c)
}

/// Each duplicate is planned for, or left.
spec fn is_on_course(
    world: World,
    refs: Refs,
    chosen: Map<Oid, Oid>,
    plan: Seq<Text>,
    stage: Stage,
) -> bool {
    forall|c: Oid| #[trigger]
        world.is_duplicate(refs, c) ==> is_planned(world, refs, chosen, plan, c) || is_left(
            world,
            chosen,
            stage,
            c,
        )
}

/// The moves of branches from the duplicate are in the plan, or left.
spec fn moves_left(
    world: World,
    refs: Refs,
    chosen: Map<Oid, Oid>,
    plan: Seq<Text>,
    c: Oid,
    heads: Seq<Ref>,
) -> bool {
    forall|name: Text| #[trigger]
        refs.contains_key(name) && is_movable(name) && world.descends(refs[name], c) ==> has_move(
            world,
            chosen,
            plan,
            name,
            c,
        ) || heads.contains(Ref { name, target: refs[name] })
}

/// The item is that a temporary branch is made at a commit that has none.
spec fn is_branching(world: World, refs: Refs, item: Text, c: Oid) -> bool {
    &&& item == branching_plan(c)
    &&& c != world.root
    &&& world.is_in_scope(refs, c)
    &&& !is_manned(refs, c)
}

/// The item is that a duplicate is kept.
spec fn is_keeping(world: World, refs: Refs, item: Text, c: Oid, k: Oid) -> bool {
    &&& item == keeping_plan(
        if world.descends(c, k) {
            Pattern::Shallow
        } else {
            Pattern::Rebase
        },
        c,
    )
    &&& world.is_duplicate(refs, c)
    &&& world.stands_for(refs, k, c)
}

/// The item is that a branch above a duplicate is moved.
spec fn is_move(world: World, refs: Refs, item: Text, c: Oid, k: Oid, name: Text) -> bool {
    &&& item == moving_plan(
        if world.descends(c, k) {
            Pattern::Shallow
        } else {
            Pattern::Rebase
        },
        name,
        k,
        c,
    )
    &&& world.is_duplicate(refs, c)
    &&& world.stands_for(refs, k, c)
    &&& refs.contains_key(name) && is_movable(name) && world.descends(refs[name], c)
}

/// There is a reason for the item.
spec fn is_warranted(world: World, refs: Refs, item: Text) -> bool {
    ||| exists|c: Oid| is_branching(world, refs, item, c)
    ||| exists|c: Oid, k: Oid| is_keeping(world, refs, item, c, k)
    ||| exists|c: Oid, k: Oid, name: Text| is_move(world, refs, item, c, k, name)
}

spec fn all_warranted(world: World, refs: Refs, plan: Seq<Text>) -> bool {
    forall|i: int| 0 <= i < plan.len() ==> is_warranted(world, refs, #[trigger] plan[i])
}

/// What the round of a dry run goes by at its stage is so.
spec fn fits(world: World, refs: Refs, chosen: Map<Oid, Oid>, plan: Seq<Text>, stage: Stage) -> bool {
    match stage {
        Stage::Heads { shared } => {
            &&& forall|c: Oid| #[trigger] is_shared(world, refs, c) ==> shared.contains(c)
            &&& forall|c: Oid| #[trigger] shared.contains(c) ==> world.is_in_scope(refs, c)
        },
        Stage::Branch { .. } => false,
        Stage::KeepRef(_) => false,
        Stage::KeepCommit(_) => false,
        Stage::Candidate(scan) => pairs_ok(world, refs, chosen, queue(scan)),
        Stage::Branches(scan) => {
            &&& scan_due(world, refs, chosen, scan)
            &&& has_keeping(world, chosen, plan, scan.current.commit)
        },
        Stage::Descends(sweep) => {
            &&& scan_due(world, refs, chosen, sweep.scan)
            &&& has_keeping(world, chosen, plan, sweep.scan.current.commit)
            &&& moves_left(
                world,
                refs,
                chosen,
                plan,
                sweep.scan.current.commit,
                seq![sweep.head] + sweep.rest,
            )
        },
        _ => true,
    }
}

/// What holds of a dry run.
spec fn drafts(world: World, refs: Refs, run: Run) -> bool {
    let (ledger, stage) = (run.ledger, run.stage);
    &&& stage matches Stage::Walk { names, .. } ==> forall|name: Text| #[trigger]
        names.contains(name) <==> refs.contains_key(name) && is_walked(name) && (is_head(name)
            || is_tag(name))
    &&& stage matches Stage::Info { survey: Survey::Round, done, current, rest } ==> covers(
        world,
        refs,
        ids(done) + (seq![current] + rest),
    )
    &&& stage matches Stage::Depth { survey: Survey::Round, done, current, rest, .. } ==> covers(
        world,
        refs,
        ids(done) + (seq![current] + rest),
    )
    &&& is_in_round(stage) ==> {
        &&& !ledger.changed && !ledger.added
        &&& is_exact(world, refs, ledger.canonicals)
        &&& is_on_course(world, refs, ledger.canonicals, ledger.plan, stage)
        &&& stage !is Heads ==> mans(world, refs, ledger.plan)
        &&& fits(world, refs, ledger.canonicals, ledger.plan, stage)
    }
    &&& !(stage is Tip || stage is Line || stage is Signature || stage is Copy || stage is Tag
        || stage is Stuck || stage is Cleanup)
    &&& stage == Stage::Finished(Outcome::Success) ==> is_complete(world, refs, ledger)
}

/// The plan has all that is to be done.
spec fn is_complete(world: World, refs: Refs, ledger: Ledger) -> bool {
    &&& mans(world, refs, ledger.plan)
    &&& forall|c: Oid| #[trigger]
        world.is_duplicate(refs, c) ==> is_planned(world, refs, ledger.canonicals, ledger.plan, c)
            && world.stands_for(refs, ledger.canonicals[c], c)
}

/// All items of the plan are printed.
spec fn prints(run: Run, effects: Seq<Effect>) -> bool {
    run.stage == Stage::Finished(Outcome::Success) ==> forall|item: Text| #[trigger]
        run.ledger.plan.contains(item) ==> effects.contains(Effect::Print("  "@ + item))
}

/// What a step of a dry run comes to.
spec fn step_ok(world: World, refs: Refs, step: (Run, Seq<Effect>)) -> bool {
    drafts(world, refs, step.0) && prints(step.0, step.1)
}

/// What holds of a dry run between two stages.
spec fn base_ok(world: World, ledger: Ledger) -> bool {
    &&& world.wf()
    &&& ledger.root == world.root
    &&& ledger.options.dry_run
}

proof fn lemma_tags(world: World, refs: Refs, ledger: Ledger, effects: Seq<Effect>)
    requires
        base_ok(world, ledger),
        is_complete(world, refs, ledger),
    ensures
        step_ok(world, refs, ledger.tags(effects)),
{
    let begun = effects.push(Effect::Print(plan_begins()));
    let all = ledger.tags(effects).1;
    assert forall|item: Text| #[trigger] ledger.plan.contains(item) implies all.contains(
        Effect::Print("  "@ + item),
    ) by {
        let i = choose|i: int| 0 <= i < ledger.plan.len() && ledger.plan[i] == item;
        assert(print_plan(ledger.plan)[i] == Effect::Print("  "@ + item));
        assert(all[begun.len() + i] == Effect::Print("  "@ + item));
    }
}

proof fn lemma_scan(
    world: World,
    refs: Refs,
    ledger: Ledger,
    pass: Pass,
    pairs: Seq<Candidate>,
    effects: Seq<Effect>,
)
    requires
        base_ok(world, ledger),
        !ledger.changed && !ledger.added,
        is_exact(world, refs, ledger.canonicals),
        mans(world, refs, ledger.plan),
        pairs_ok(world, refs, ledger.canonicals, pairs),
        forall|c: Oid| #[trigger]
            world.is_duplicate(refs, c) ==> is_planned(
                world,
                refs,
                ledger.canonicals,
                ledger.plan,
                c,
            ) || is_left_in(world, ledger.canonicals, pass.pattern, pairs, c),
    ensures
        step_ok(world, refs, ledger.scan(pass, pairs, effects)),
{
    if pairs.len() > 0 {
        assert(seq![pairs[0]] + pairs.drop_first() =~= pairs);
    } else if !pass.changed && pass.pattern == Pattern::Shallow {
        assert forall|c: Oid| #[trigger] world.is_duplicate(refs, c) implies is_planned(
            world,
            refs,
            ledger.canonicals,
            ledger.plan,
            c,
        ) && world.stands_for(refs, ledger.canonicals[c], c) by {
            assert(!is_queued(pairs, c));
            assert(world.is_in_walk(refs, c));
        }
        lemma_tags(world, refs, ledger, effects.push(Effect::Print(fixpoint(ledger.round))));
    } else {
        assert forall|c: Oid| #[trigger] world.is_duplicate(refs, c) implies is_planned(
            world,
            refs,
            ledger.canonicals,
            ledger.plan,
            c,
        ) || is_left(world, ledger.canonicals, ledger.scan(pass, pairs, effects).0.stage, c) by {
            assert(!is_queued(pairs, c));
        }
    }
}

proof fn lemma_sweep(
    world: World,
    refs: Refs,
    ledger: Ledger,
    scan: Scan,
    heads: Seq<Ref>,
    effects: Seq<Effect>,
)
    requires
        base_ok(world, ledger),
        !ledger.changed && !ledger.added,
        is_exact(world, refs, ledger.canonicals),
        mans(world, refs, ledger.plan),
        scan_due(world, refs, ledger.canonicals, scan),
        has_keeping(world, ledger.canonicals, ledger.plan, scan.current.commit),
        moves_left(world, refs, ledger.canonicals, ledger.plan, scan.current.commit, heads),
        forall|c: Oid| #[trigger]
            world.is_duplicate(refs, c) ==> is_planned(
                world,
                refs,
                ledger.canonicals,
                ledger.plan,
                c,
            ) || is_left_in(world, ledger.canonicals, scan.pass.pattern, queue(scan), c),
    ensures
        step_ok(world, refs, ledger.sweep(scan, heads, effects)),
{
    let chosen = ledger.canonicals;
    if heads.len() > 0 {
        assert(seq![heads[0]] + heads.drop_first() =~= heads);
    } else {
        let all = queue(scan);
        assert forall|i: int| 0 <= i < scan.rest.len() implies {
            let pair = #[trigger] scan.rest[i];
            &&& world.is_duplicate(refs, pair.commit)
            &&& chosen.contains_key(pair.commit)
            &&& pair.canonical == chosen[pair.commit]
        } by {
            assert(all[i + 1] == scan.rest[i]);
        }
        assert(is_planned(world, refs, chosen, ledger.plan, scan.current.commit)) by {
            assert forall|name: Text| #[trigger]
                refs.contains_key(name) && is_movable(name) && world.descends(
                    refs[name],
                    scan.current.commit,
                ) implies has_move(world, chosen, ledger.plan, name, scan.current.commit) by {
                assert(!heads.contains(Ref { name, target: refs[name] }));
            }
        }
        assert forall|c: Oid| #[trigger] world.is_duplicate(refs, c) implies is_planned(
            world,
            refs,
            chosen,
            ledger.plan,
            c,
        ) || is_left_in(world, chosen, scan.pass.pattern, scan.rest, c) by {
            if !is_planned(world, refs, chosen, ledger.plan, c) && is_queued(all, c) {
                let i = choose|i: int| 0 <= i < all.len() && (#[trigger] all[i]).commit == c;
                assert(i > 0);
                assert(scan.rest[i - 1].commit == c);
            }
        }
        lemma_scan(world, refs, ledger, scan.pass, scan.rest, effects);
    }
}

/// A longer plan has what a shorter one has.
proof fn lemma_longer(
    world: World,
    refs: Refs,
    chosen: Map<Oid, Oid>,
    plan: Seq<Text>,
    more: Seq<Text>,
)
    ensures
        mans(world, refs, plan) ==> mans(world, refs, plan + more),
        forall|c: Oid| #[trigger]
            is_planned(world, refs, chosen, plan, c) ==> is_planned(
                world,
                refs,
                chosen,
                plan + more,
                c,
            ),
        forall|item: Text| plan.contains(item) ==> #[trigger] (plan + more).contains(item),
        forall|item: Text| more.contains(item) ==> #[trigger] (plan + more).contains(item),
{
    let all = plan + more;
    assert forall|item: Text| plan.contains(item) implies #[trigger] all.contains(item) by {
        let i = choose|i: int| 0 <= i < plan.len() && plan[i] == item;
        assert(all[i] == item);
    }
    assert forall|item: Text| more.contains(item) implies #[trigger] all.contains(item) by {
        let i = choose|i: int| 0 <= i < more.len() && more[i] == item;
        assert(all[plan.len() + i] == item);
    }
    assert forall|c: Oid| #[trigger] is_planned(world, refs, chosen, plan, c) implies is_planned(
        world,
        refs,
        chosen,
        all,
        c,
    ) by {
        assert forall|name: Text| #[trigger]
            refs.contains_key(name) && is_movable(name) && world.descends(
                refs[name],
                c,
            ) implies has_move(world, chosen, all, name, c) by {
            assert(has_move(world, chosen, plan, name, c));
        }
    }
}

proof fn lemma_survey(
    world: World,
    refs: Refs,
    ledger: Ledger,
    survey: Survey,
    done: Seq<CommitInfo>,
    commits: Seq<Oid>,
)
    requires
        base_ok(world, ledger),
        !ledger.changed && !ledger.added,
        infos_ok(world, done),
        survey is Round ==> covers(world, refs, ids(done) + commits),
    ensures
        step_ok(world, refs, ledger.survey(survey, done, commits)),
{
    if commits.len() > 0 {
        assert(seq![commits[0]] + commits.drop_first() =~= commits);
    } else if survey is Round {
        assert(ids(done) + commits =~= ids(done));
        lemma_chosen(world, refs, done);
        lemma_infos(world, done);
        lemma_known(done);
        let chosen = canonicals(done);
        assert forall|c: Oid| #[trigger] chosen.contains_key(c) implies world.stands_for(
            refs,
            chosen[c],
            c,
        ) by {
            lemma_canonicals(world, refs, done, c);
        }
        lemma_shared_found(world, refs, done);
        let shared = shared_of(groups(done));
        assert forall|c: Oid| #[trigger] shared.contains(c) implies world.is_in_scope(refs, c) by {
            lemma_shared_known(done, c);
        }
    }
}

/// The commits that share their trees are found in a survey.
pub(crate) proof fn lemma_shared_found(world: World, refs: Refs, done: Seq<CommitInfo>)
    requires
        infos_ok(world, done),
        covers(world, refs, ids(done)),
    ensures
        forall|c: Oid| #[trigger]
            is_shared(world, refs, c) ==> shared_of(groups(done)).contains(c),
{
    lemma_infos(world, done);
    lemma_known(done);
    let shared = shared_of(groups(done));
    assert forall|c: Oid| #[trigger] is_shared(world, refs, c) implies shared.contains(c) by {
        let d = choose|d: Oid| #[trigger]
            world.is_in_scope(refs, d) && d != c && (world.tree)(d) == (world.tree)(c);
        assert(world.is_in_walk(refs, c));
        assert(ids(done).contains(c) && ids(done).contains(world.root));
        assert(ids(done).contains(d)) by {
            if d != world.root {
                assert(world.is_in_walk(refs, d));
            }
        }
        assert(known(done).contains_key(c) && known(done).contains_key(d));
        lemma_two_are_shared(done, c, d);
    }
}

proof fn lemma_walked(world: World, refs: Refs, ledger: Ledger, goal: Goal, commits: Seq<Oid>)
    requires
        base_ok(world, ledger),
        !ledger.changed && !ledger.added,
        covers(world, refs, commits),
        goal matches Goal::Pass(pass) ==> {
            &&& is_exact(world, refs, ledger.canonicals)
            &&& mans(world, refs, ledger.plan)
            &&& forall|c: Oid| #[trigger]
                world.is_duplicate(refs, c) ==> is_planned(
                    world,
                    refs,
                    ledger.canonicals,
                    ledger.plan,
                    c,
                ) || pass.pattern == Pattern::Rebase || is_due(
                    world,
                    ledger.canonicals,
                    Pattern::Shallow,
                    c,
                )
        },
    ensures
        step_ok(world, refs, ledger.walked(goal, commits)),
{
    match goal {
        Goal::Initial => {
            lemma_survey(world, refs, ledger, Survey::Initial, Seq::empty(), commits);
        },
        Goal::Round => {
            if others(commits, ledger.root).len() == 0 {
                assert forall|c: Oid| world.is_in_walk(refs, c) implies false by {
                    assert(world.reaches(world.root, world.root));
                    let i = choose|i: int| 0 <= i < commits.len() && commits[i] == c;
                    commits.lemma_filter_contains(other_than(ledger.root), i);
                }
                lemma_tags(world, refs, ledger, seq![Effect::Print(nothing_to_do())]);
            }
        },
        Goal::Canonicals => {
            assert(ids(Seq::<CommitInfo>::empty()) + commits =~= commits);
            lemma_survey(world, refs, ledger, Survey::Round, Seq::empty(), commits);
        },
        Goal::Pass(pass) => {
            lemma_candidates(world, refs, ledger.canonicals, commits);
            let pairs = candidates(commits, ledger.canonicals, ledger.root);
            assert forall|c: Oid| #[trigger] world.is_duplicate(refs, c) implies is_planned(
                world,
                refs,
                ledger.canonicals,
                ledger.plan,
                c,
            ) || is_left_in(world, ledger.canonicals, pass.pattern, pairs, c) by {
                assert(is_queued(pairs, c));
            }
            lemma_scan(world, refs, ledger, pass, pairs, Seq::empty());
        },
    }
}

proof fn lemma_learned(
    world: World,
    refs: Refs,
    ledger: Ledger,
    survey: Survey,
    done: Seq<CommitInfo>,
    info: CommitInfo,
    rest: Seq<Oid>,
)
    requires
        base_ok(world, ledger),
        !ledger.changed && !ledger.added,
        infos_ok(world, done.push(info)),
        survey is Round ==> covers(world, refs, ids(done) + (seq![info.oid] + rest)),
    ensures
        step_ok(world, refs, ledger.survey(survey, done.push(info), rest)),
{
    assert(ids(done.push(info)) + rest =~= ids(done) + (seq![info.oid] + rest));
    lemma_survey(world, refs, ledger, survey, done.push(info), rest);
}

proof fn lemma_survey_step(world: World, refs: Refs, run: Run, reply: Reply)
    requires
        base_ok(world, run.ledger),
        !run.ledger.changed && !run.ledger.added,
        grounded(world, refs, refs, run),
        drafts(world, refs, run),
        world.tells(refs, run.request(), reply),
        run.stage is WalkNames || run.stage is Walk || run.stage is Info || run.stage is Depth,
    ensures
        step_ok(world, refs, run.advance(reply)),
{
    let ledger = run.ledger;
    match (run.stage, reply) {
        (Stage::WalkNames(goal), Reply::Refs(Ok(records))) => {
            lemma_listed(refs, records);
            let found = local_refs(records)->Ok_0;
            lemma_walk_names(refs, found);
            if found.len() == 0 {
                assert forall|c: Oid| world.is_in_walk(refs, c) implies false by {
                    let n = choose|n: Text| #[trigger]
                        refs.contains_key(n) && is_walked(n) && (is_head(n) || is_tag(n))
                            && world.reaches(refs[n], c);
                    assert(holds(refs, Ref { name: n, target: refs[n] }));
                    assert(found.contains(Ref { name: n, target: refs[n] }));
                }
                lemma_walked(world, refs, ledger, goal, Seq::empty());
            }
        },
        (Stage::Walk { goal, names }, Reply::Commits(Ok(commits))) => {
            lemma_covers(world, refs, names, commits);
            lemma_walked(world, refs, ledger, goal, with_root(commits, ledger.root));
        },
        (Stage::Info { survey, done, current, rest }, Reply::TreeAndDate(Ok((tree, date)))) => {
            if current == ledger.root {
                assert(world.range(world.root, world.root) =~= Set::empty());
                let info = CommitInfo { tree_id: tree, depth: 0, cdate: date, oid: current };
                lemma_learned(world, refs, ledger, survey, done, info, rest);
            } else if ledger.depths.contains_key(current) {
                let info = CommitInfo {
                    tree_id: tree,
                    depth: ledger.depths[current],
                    cdate: date,
                    oid: current,
                };
                lemma_learned(world, refs, ledger, survey, done, info, rest);
            }
        },
        (Stage::Depth { survey, done, current, rest, tree, date }, Reply::Count(Ok(depth))) => {
            let info = CommitInfo { tree_id: tree, depth, cdate: date, oid: current };
            let next = Ledger { depths: ledger.depths.insert(current, depth), ..ledger };
            lemma_learned(world, refs, next, survey, done, info, rest);
        },
        _ => {},
    }
}

proof fn lemma_heads_step(world: World, refs: Refs, run: Run, reply: Reply)
    requires
        base_ok(world, run.ledger),
        drafts(world, refs, run),
        world.tells(refs, run.request(), reply),
        run.stage is Heads,
    ensures
        step_ok(world, refs, run.advance(reply)),
{
    let ledger = run.ledger;
    if let (Stage::Heads { shared }, Reply::Refs(Ok(records))) = (run.stage, reply) {
        lemma_listed(refs, records);
        let found = local_refs(records)->Ok_0;
        let missing = unbranched(shared, found, ledger.root);
        let more = missing.map_values(|commit: Oid| branching_plan(commit));
        let wanted = is_unbranched(found, ledger.root);
        lemma_distinct(shared.filter(wanted));
        lemma_longer(world, refs, ledger.canonicals, ledger.plan, more);
        assert forall|c: Oid| #[trigger]
            is_shared(world, refs, c) && !is_manned(refs, c) implies (ledger.plan + more).contains(
            branching_plan(c),
        ) by {
            if has_head(found, c) {
                let i = choose|i: int|
                    0 <= i < found.len() && is_head((#[trigger] found[i]).name) && found[i].target
                        == c;
                assert(found.contains(found[i]));
                assert(refs.contains_key(found[i].name));
            }
            assert(shared.contains(c));
            let k = choose|k: int| 0 <= k < shared.len() && shared[k] == c;
            shared.lemma_filter_contains(wanted, k);
            assert(missing.contains(c));
            let j = choose|j: int| 0 <= j < missing.len() && missing[j] == c;
            assert(more[j] == branching_plan(c));
            assert(more.contains(branching_plan(c)));
        }
    }
}

proof fn lemma_candidate_step(world: World, refs: Refs, run: Run, reply: Reply)
    requires
        base_ok(world, run.ledger),
        drafts(world, refs, run),
        world.tells(refs, run.request(), reply),
        run.stage is Candidate,
    ensures
        step_ok(world, refs, run.advance(reply)),
{
    let ledger = run.ledger;
    let chosen = ledger.canonicals;
    if let (Stage::Candidate(scan), Reply::Answer(answer)) = (run.stage, reply) {
        let all = queue(scan);
        let c = scan.current.commit;
        assert(all[0] == scan.current);
        assert((answer == Ok::<bool, Failure>(true)) == world.descends(c, chosen[c]));
        if !is_due(world, chosen, scan.pass.pattern, c) {
            assert forall|i: int| 0 <= i < scan.rest.len() implies {
                let pair = #[trigger] scan.rest[i];
                &&& world.is_duplicate(refs, pair.commit)
                &&& chosen.contains_key(pair.commit)
                &&& pair.canonical == chosen[pair.commit]
            } by {
                assert(all[i + 1] == scan.rest[i]);
            }
            assert forall|d: Oid| #[trigger] world.is_duplicate(refs, d) implies is_planned(
                world,
                refs,
                chosen,
                ledger.plan,
                d,
            ) || is_left_in(world, chosen, scan.pass.pattern, scan.rest, d) by {
                if !is_planned(world, refs, chosen, ledger.plan, d) && is_due(
                    world,
                    chosen,
                    scan.pass.pattern,
                    d,
                ) && is_queued(all, d) {
                    let i = choose|i: int| 0 <= i < all.len() && (#[trigger] all[i]).commit == d;
                    assert(i > 0);
                    assert(scan.rest[i - 1].commit == d);
                }
            }
            lemma_scan(world, refs, ledger, scan.pass, scan.rest, Seq::empty());
        } else {
            let item = keeping_plan(scan.pass.pattern, c);
            lemma_longer(world, refs, chosen, ledger.plan, seq![item]);
            assert(ledger.plan.push(item) =~= ledger.plan + seq![item]);
            assert(seq![item][0] == item);
            assert(seq![item].contains(item));
            assert(scan.pass.pattern == pattern_of(world, chosen, c));
        }
    }
}

proof fn lemma_sweep_step(world: World, refs: Refs, run: Run, reply: Reply)
    requires
        base_ok(world, run.ledger),
        grounded(world, refs, refs, run),
        drafts(world, refs, run),
        world.tells(refs, run.request(), reply),
        run.stage is Branches || run.stage is Descends,
    ensures
        step_ok(world, refs, run.advance(reply)),
{
    let ledger = run.ledger;
    let chosen = ledger.canonicals;
    match (run.stage, reply) {
        (Stage::Branches(scan), Reply::Refs(Ok(records))) => {
            lemma_listed(refs, records);
            let found = local_refs(records)->Ok_0;
            let c = scan.current.commit;
            let heads = movable(found, c);
            let wanted = |r: Ref| is_movable(r.name) && r.target != c;
            assert(heads == found.filter(wanted));
            assert forall|name: Text| #[trigger]
                refs.contains_key(name) && is_movable(name) && world.descends(
                    refs[name],
                    c,
                ) implies has_move(world, chosen, ledger.plan, name, c) || heads.contains(
                Ref { name, target: refs[name] },
            ) by {
                let r = Ref { name, target: refs[name] };
                assert(holds(refs, r));
                assert(found.contains(r));
                let i = choose|i: int| 0 <= i < found.len() && found[i] == r;
                found.lemma_filter_contains(wanted, i);
            }
            lemma_sweep(world, refs, ledger, scan, heads, Seq::empty());
        },
        (Stage::Descends(sweep), Reply::Answer(answer)) => {
            let scan = sweep.scan;
            let c = scan.current.commit;
            let all = seq![sweep.head] + sweep.rest;
            assert(all[0] == sweep.head);
            assert(holds(refs, all[0]));
            assert(queue(scan)[0] == scan.current);
            let moves = answer == Ok::<bool, Failure>(true);
            let item = moving_plan(scan.pass.pattern, sweep.head.name, scan.current.canonical, c);
            let plan = if moves {
                ledger.plan.push(item)
            } else {
                ledger.plan
            };
            lemma_longer(world, refs, chosen, ledger.plan, seq![item]);
            assert(ledger.plan.push(item) =~= ledger.plan + seq![item]);
            assert(seq![item][0] == item);
            assert(seq![item].contains(item));
            assert(scan.pass.pattern == pattern_of(world, chosen, c));
            assert forall|name: Text| #[trigger]
                refs.contains_key(name) && is_movable(name) && world.descends(
                    refs[name],
                    c,
                ) implies has_move(world, chosen, plan, name, c) || sweep.rest.contains(
                Ref { name, target: refs[name] },
            ) by {
                let r = Ref { name, target: refs[name] };
                if !has_move(world, chosen, plan, name, c) {
                    assert(!has_move(world, chosen, ledger.plan, name, c));
                    assert(all.contains(r));
                    let i = choose|i: int| 0 <= i < all.len() && all[i] == r;
                    if i == 0 {
                        assert(moves);
                        assert(plan.contains(item));
                    }
                    assert(sweep.rest[i - 1] == r);
                }
            }
            let next = Ledger { plan, ..ledger };
            if moves {
                let said = Effect::Print(
                    moving(
                        scan.pass.pattern,
                        ledger.round,
                        scan.pass.number,
                        sweep.head.name,
                        scan.current.canonical,
                    ),
                );
                lemma_sweep(world, refs, next, scan, sweep.rest, seq![said]);
            } else {
                lemma_sweep(world, refs, ledger, scan, sweep.rest, Seq::empty());
            }
        },
        _ => {},
    }
}

/// A dry run moves nothing and adds nothing.
spec fn is_idle(run: Run) -> bool {
    run.stage is Finished || !run.ledger.changed && !run.ledger.added
}

proof fn lemma_idle_step(run: Run, reply: Reply)
    requires
        run.ledger.options.dry_run,
        is_idle(run),
        !(run.stage is Tip || run.stage is Line || run.stage is Signature || run.stage is Copy
            || run.stage is Tag || run.stage is Stuck || run.stage is Cleanup || run.stage is Branch),
    ensures
        is_idle(run.advance(reply).0),
{
}

proof fn lemma_drafts_step(world: World, refs: Refs, run: Run, reply: Reply)
    requires
        world.wf(),
        run.ledger.options.dry_run,
        is_idle(run),
        grounded(world, refs, refs, run),
        drafts(world, refs, run),
        world.tells(refs, run.request(), reply),
    ensures
        is_idle(run.advance(reply).0),
        drafts(world, refs, run.advance(reply).0),
        run.stage !is Finished ==> prints(run.advance(reply).0, run.advance(reply).1),
{
    assert(run.stage !is Branch);
    lemma_idle_step(run, reply);
    match run.stage {
        Stage::WalkNames(_) => {
            lemma_survey_step(world, refs, run, reply);
        },
        Stage::Walk { .. } => {
            lemma_survey_step(world, refs, run, reply);
        },
        Stage::Info { .. } => {
            lemma_survey_step(world, refs, run, reply);
        },
        Stage::Depth { .. } => {
            lemma_survey_step(world, refs, run, reply);
        },
        Stage::Heads { .. } => {
            lemma_heads_step(world, refs, run, reply);
        },
        Stage::Candidate(_) => {
            lemma_candidate_step(world, refs, run, reply);
        },
        Stage::Branches(_) => {
            lemma_sweep_step(world, refs, run, reply);
        },
        Stage::Descends(_) => {
            lemma_sweep_step(world, refs, run, reply);
        },
        _ => {},
    }
}

proof fn lemma_drafts(
    world: World,
    first: Refs,
    options: Options,
    root: Oid,
    replies: Seq<Reply>,
)
    requires
        world.wf(),
        options.dry_run,
        world.is_honest(first, start(options, root), replies),
    ensures
        ({
            let (run, effects) = replay(start(options, root), replies);
            drafts(world, first, run) && prints(run, effects) && is_idle(run)
        }),
    decreases replies.len(),
{
    if replies.len() > 0 {
        let front = replies.drop_last();
        lemma_drafts(world, first, options, root, front);
        lemma_grounded(world, first, options, root, front);
        dry_runs_leave_references_alone(world, first, options, root, front);
        lemma_course(first, start(options, root), front);
        runs_are_sound(options, root, front);
        let (run, before) = replay(start(options, root), front);
        lemma_drafts_step(world, first, run, replies.last());
        lemma_printed(run, before, replies.last());
    }
}

/// What was printed stays so.
proof fn lemma_printed(run: Run, before: Seq<Effect>, reply: Reply)
    requires
        prints(run, before),
        run.stage !is Finished ==> prints(run.advance(reply).0, run.advance(reply).1),
    ensures
        prints(run.advance(reply).0, before + run.advance(reply).1),
{
    let step = run.advance(reply);
    let all = before + step.1;
    if run.stage is Finished {
        the_end_is_the_end(run, reply);
        assert(all =~= before);
    } else if step.0.stage == Stage::Finished(Outcome::Success) {
        assert forall|item: Text| #[trigger] step.0.ledger.plan.contains(item) implies all.contains(
            Effect::Print("  "@ + item),
        ) by {
            let line = Effect::Print("  "@ + item);
            let i = choose|i: int| 0 <= i < step.1.len() && step.1[i] == line;
            assert(all[before.len() + i] == line);
        }
    }
}

proof fn lemma_warranted_heads(world: World, refs: Refs, run: Run, reply: Reply)
    requires
        base_ok(world, run.ledger),
        drafts(world, refs, run),
        all_warranted(world, refs, run.ledger.plan),
        world.tells(refs, run.request(), reply),
        run.stage is Heads,
    ensures
        all_warranted(world, refs, run.advance(reply).0.ledger.plan),
{
    let ledger = run.ledger;
    if let (Stage::Heads { shared }, Reply::Refs(Ok(records))) = (run.stage, reply) {
        lemma_listed(refs, records);
        let found = local_refs(records)->Ok_0;
        let missing = unbranched(shared, found, ledger.root);
        let wanted = is_unbranched(found, ledger.root);
        let kept = shared.filter(wanted);
        lemma_distinct(kept);
        let plan = run.advance(reply).0.ledger.plan;
        assert forall|i: int| 0 <= i < plan.len() implies is_warranted(
            world,
            refs,
            #[trigger] plan[i],
        ) by {
            if i < ledger.plan.len() {
                assert(plan[i] == ledger.plan[i]);
            } else {
                let c = missing[i - ledger.plan.len()];
                assert(plan[i] == branching_plan(c));
                assert(missing.contains(c));
                assert(kept.contains(c));
                shared.lemma_filter_contains_rev(wanted, c);
                let k = choose|k: int| 0 <= k < kept.len() && kept[k] == c;
                shared.lemma_filter_pred(wanted, k);
                if is_manned(refs, c) {
                    let name = choose|name: Text| #[trigger]
                        refs.contains_key(name) && is_head(name) && refs[name] == c;
                    let r = Ref { name, target: c };
                    assert(holds(refs, r));
                    assert(found.contains(r));
                    let j = choose|j: int| 0 <= j < found.len() && found[j] == r;
                    assert(is_head(found[j].name) && found[j].target == c);
                    assert(has_head(found, c));
                }
                assert(is_branching(world, refs, plan[i], c));
            }
        }
    }
}

proof fn lemma_pushed(world: World, refs: Refs, plan: Seq<Text>, item: Text)
    requires
        all_warranted(world, refs, plan),
        is_warranted(world, refs, item),
    ensures
        all_warranted(world, refs, plan.push(item)),
{
    let all = plan.push(item);
    assert forall|i: int| 0 <= i < all.len() implies is_warranted(world, refs, #[trigger] all[i]) by {
        if i < plan.len() {
            assert(all[i] == plan[i]);
        }
    }
}

/// The plan that a pass leaves behind where it goes on.
proof fn lemma_plan_stays(run: Run, reply: Reply)
    requires
        run.ledger.options.dry_run,
        run.stage !is Heads,
        run.stage !is Branch,
        run.stage !is KeepRef,
        run.stage !is KeepCommit,
        !(run.stage is Tip || run.stage is Line || run.stage is Signature || run.stage is Copy
            || run.stage is Tag),
        run.stage is Candidate ==> run.advance(reply).0.stage !is Branches,
        run.stage is Descends ==> reply != Reply::Answer(Ok(true)),
    ensures
        run.advance(reply).0.ledger.plan == run.ledger.plan,
{
}

proof fn lemma_warranted_step(world: World, refs: Refs, run: Run, reply: Reply)
    requires
        base_ok(world, run.ledger),
        grounded(world, refs, refs, run),
        drafts(world, refs, run),
        all_warranted(world, refs, run.ledger.plan),
        world.tells(refs, run.request(), reply),
        run.stage is Candidate || run.stage is Descends,
        stage_ok(run.stage),
    ensures
        all_warranted(world, refs, run.advance(reply).0.ledger.plan),
{
    let ledger = run.ledger;
    let chosen = ledger.canonicals;
    match (run.stage, reply) {
        (Stage::Candidate(scan), Reply::Answer(answer)) => {
            let (c, k) = (scan.current.commit, scan.current.canonical);
            assert(queue(scan)[0] == scan.current);
            if is_due(world, chosen, scan.pass.pattern, c) {
                let item = keeping_plan(scan.pass.pattern, c);
                assert(is_keeping(world, refs, item, c, k));
                lemma_pushed(world, refs, ledger.plan, item);
            } else {
                lemma_plan_stays(run, reply);
            }
        },
        (Stage::Descends(sweep), Reply::Answer(answer)) => {
            let (c, k) = (sweep.scan.current.commit, sweep.scan.current.canonical);
            assert(queue(sweep.scan)[0] == sweep.scan.current);
            let all = seq![sweep.head] + sweep.rest;
            assert(all[0] == sweep.head);
            assert(holds(refs, all[0]));
            if answer == Ok::<bool, Failure>(true) {
                let item = moving_plan(sweep.scan.pass.pattern, sweep.head.name, k, c);
                assert(is_move(world, refs, item, c, k, sweep.head.name));
                lemma_pushed(world, refs, ledger.plan, item);
                let next = Ledger { plan: ledger.plan.push(item), ..ledger };
                assert(run.advance(reply).0.ledger.plan == next.plan);
            } else {
                lemma_plan_stays(run, reply);
            }
        },
        _ => {},
    }
}

proof fn lemma_warranted(
    world: World,
    first: Refs,
    options: Options,
    root: Oid,
    replies: Seq<Reply>,
)
    requires
        world.wf(),
        options.dry_run,
        world.is_honest(first, start(options, root), replies),
    ensures
        all_warranted(world, first, replay(start(options, root), replies).0.ledger.plan),
    decreases replies.len(),
{
    if replies.len() > 0 {
        let front = replies.drop_last();
        let reply = replies.last();
        lemma_warranted(world, first, options, root, front);
        lemma_drafts(world, first, options, root, front);
        lemma_grounded(world, first, options, root, front);
        dry_runs_leave_references_alone(world, first, options, root, front);
        lemma_course(first, start(options, root), front);
        runs_are_sound(options, root, front);
        let run = replay(start(options, root), front).0;
        if run.stage is Heads {
            lemma_warranted_heads(world, first, run, reply);
        } else if run.stage is Candidate || run.stage is Descends {
            lemma_warranted_step(world, first, run, reply);
        } else {
            lemma_plan_stays(run, reply);
        }
    }
}

/// The plan of a dry run holds nothing else: each item is that a temporary branch is made at a
/// commit, other than the root, at which none stands; or that a commit is kept for which another
/// stands; or that a branch above such a commit is rebased onto the other.
pub proof fn the_plan_has_nothing_else(
    world: World,
    first: Refs,
    options: Options,
    root: Oid,
    replies: Seq<Reply>,
    i: int,
)
    requires
        world.wf(),
        options.dry_run,
        world.is_honest(first, start(options, root), replies),
        0 <= i < replay(start(options, root), replies).0.ledger.plan.len(),
    ensures
        ({
            let item = replay(start(options, root), replies).0.ledger.plan[i];
            ||| exists|c: Oid| plans_branch(world, first, item, c)
            ||| exists|c: Oid, k: Oid| plans_keeping(world, first, item, c, k)
            ||| exists|c: Oid, k: Oid, name: Text| plans_move(world, first, item, c, k, name)
        }),
{
    lemma_warranted(world, first, options, root, replies);
    let item = replay(start(options, root), replies).0.ledger.plan[i];
    assert(is_warranted(world, first, item));
    if exists|c: Oid| is_branching(world, first, item, c) {
        let c = choose|c: Oid| is_branching(world, first, item, c);
        lines_name_commits_and_branches(Seq::empty(), c, c, 0, 0);
        lemma_in_play(world, first, c);
        assert forall|name: Text| #[trigger]
            first.contains_key(name) && "refs/heads/"@.is_prefix_of(name) implies first[name]
            != c by {
            names_are_told_by_how_they_begin(name, c);
        }
        assert(plans_branch(world, first, item, c));
    } else if exists|c: Oid, k: Oid| is_keeping(world, first, item, c, k) {
        let (c, k) = choose|c: Oid, k: Oid| is_keeping(world, first, item, c, k);
        lines_name_commits_and_branches(Seq::empty(), c, k, 0, 0);
        lemma_in_play(world, first, c);
        lemma_other(world, first, c, k);
        assert(plans_keeping(world, first, item, c, k));
    } else {
        let (c, k, name) = choose|c: Oid, k: Oid, name: Text|
            is_move(world, first, item, c, k, name);
        lines_name_commits_and_branches(name, c, k, 0, 0);
        names_are_told_by_how_they_begin(name, c);
        lemma_in_play(world, first, c);
        lemma_other(world, first, c, k);
        assert(plans_move(world, first, item, c, k, name));
    }
}

/// Another commit stands for a duplicate.
proof fn lemma_other(world: World, refs: Refs, c: Oid, k: Oid)
    requires
        world.wf(),
        world.is_duplicate(refs, c),
        world.stands_for(refs, k, c),
    ensures
        k != c,
{
    let d = choose|d: Oid| #[trigger]
        world.is_in_scope(refs, d) && (world.tree)(d) == (world.tree)(c) && world.fact(
            d,
        ).ranks_before(world.fact(c));
    lemma_in_play(world, refs, d);
    lemma_precedes(world, c, d);
    lemma_precedes(world, d, c);
    Oid::less_is_strict_total_order(c, d, c);
}

/// The item is that a temporary branch is made at a commit, other than the root, at which none
/// stands.
pub open spec fn plans_branch(world: World, refs: Refs, item: Text, c: Oid) -> bool {
    &&& item == "Step 0: create temp branch refs/heads/gto/"@ + hex(c.bytes@) + " for "@ + hex(
        c.bytes@,
    )
    &&& c != world.root
    &&& world.is_in_play(refs, c)
    &&& forall|name: Text| #[trigger]
        refs.contains_key(name) && "refs/heads/"@.is_prefix_of(name) ==> refs[name] != c
}

/// The item is that a commit is kept for which another stands.
pub open spec fn plans_keeping(world: World, refs: Refs, item: Text, c: Oid, k: Oid) -> bool {
    &&& item == (if (world.reach)(c).contains(k) {
        "Pattern 2: preserve chain refs/heads/gto-keep/"@
    } else {
        "Pattern 1: preserve chain refs/heads/gto-keep/"@
    }) + hex(c.bytes@) + " at "@ + hex(c.bytes@)
    &&& world.is_in_play(refs, c)
    &&& world.stands_for(refs, k, c)
    &&& k != c
}

/// The item is that a branch above a commit for which another stands is rebased onto that one.
pub open spec fn plans_move(
    world: World,
    refs: Refs,
    item: Text,
    c: Oid,
    k: Oid,
    name: Text,
) -> bool {
    &&& item == (if (world.reach)(c).contains(k) {
        "Pattern 2: rebase "@
    } else {
        "Pattern 1: rebase "@
    }) + name + " onto "@ + hex(k.bytes@) + " (from "@ + hex(c.bytes@) + ")"@
    &&& world.is_in_play(refs, c)
    &&& world.stands_for(refs, k, c)
    &&& k != c
    &&& refs.contains_key(name) && "refs/heads/"@.is_prefix_of(name)
    &&& !"refs/heads/gto-keep/"@.is_prefix_of(name) && !"refs/heads/gto/"@.is_prefix_of(name)
    &&& refs[name] != c && (world.reach)(refs[name]).contains(c)
}

/// When a dry run succeeds, it has printed what a run would do about each commit for which another
/// stands: that a branch keeps it, and that each branch above it is rebased onto the other, unless it
/// is one of those that runs make, under `gto/` or `gto-keep/`. The pattern is the second one where
/// the commit descends from the other.
pub proof fn the_plan_has_every_move(
    world: World,
    first: Refs,
    options: Options,
    root: Oid,
    replies: Seq<Reply>,
    commit: Oid,
    canonical: Oid,
    name: Text,
)
    requires
        world.wf(),
        options.dry_run,
        world.is_honest(first, start(options, root), replies),
        replay(start(options, root), replies).0.request() == Request::Finished(Outcome::Success),
        world.is_in_play(first, commit),
        world.stands_for(first, canonical, commit),
        canonical != commit,
    ensures
        ({
            let effects = replay(start(options, root), replies).1;
            let pattern = if (world.reach)(commit).contains(canonical) {
                "  Pattern 2: "@
            } else {
                "  Pattern 1: "@
            };
            &&& effects.contains(
                Effect::Print(
                    pattern + "preserve chain refs/heads/gto-keep/"@ + hex(commit.bytes@) + " at "@
                        + hex(commit.bytes@),
                ),
            )
            &&& first.contains_key(name) && "refs/heads/"@.is_prefix_of(name)
                && !"refs/heads/gto-keep/"@.is_prefix_of(name) && !"refs/heads/gto/"@.is_prefix_of(
                name,
            ) && first[name] != commit && (world.reach)(first[name]).contains(commit)
                ==> effects.contains(
                Effect::Print(
                    pattern + "rebase "@ + name + " onto "@ + hex(canonical.bytes@) + " (from "@
                        + hex(commit.bytes@) + ")"@,
                ),
            )
        }),
{
    let (run, effects) = replay(start(options, root), replies);
    lemma_drafts(world, first, options, root, replies);
    lemma_stands_for(world, first, canonical, commit);
    let chosen = run.ledger.canonicals;
    let plan = run.ledger.plan;
    assert(is_planned(world, first, chosen, plan, commit));
    one_commit_stands_for_another(
        world,
        first,
        canonical,
        chosen[commit],
        commit,
    );
    let shallow = (world.reach)(commit).contains(canonical);
    assert(world.reaches(commit, canonical) == shallow);
    let pattern = if shallow {
        "  Pattern 2: "@
    } else {
        "  Pattern 1: "@
    };
    names_are_told_by_how_they_begin(name, commit);
    reveal_strlit("  ");
    reveal_strlit("  Pattern 1: ");
    reveal_strlit("  Pattern 2: ");
    reveal_strlit("Pattern 1: preserve chain ");
    reveal_strlit("Pattern 2: preserve chain ");
    reveal_strlit("Pattern 1: rebase ");
    reveal_strlit("Pattern 2: rebase ");
    reveal_strlit("rebase ");
    reveal_strlit("refs/heads/gto-keep/");
    reveal_strlit("preserve chain refs/heads/gto-keep/");
    let kept = keeping_plan(pattern_of(world, chosen, commit), commit);
    assert("  "@ + kept =~= pattern + "preserve chain refs/heads/gto-keep/"@ + hex(commit.bytes@)
        + " at "@ + hex(commit.bytes@));
    assert(plan.contains(kept));
    let moved = moving_plan(pattern_of(world, chosen, commit), name, canonical, commit);
    assert("  "@ + moved =~= pattern + "rebase "@ + name + " onto "@ + hex(canonical.bytes@)
        + " (from "@ + hex(commit.bytes@) + ")"@);
    if first.contains_key(name) && is_movable(name) && world.descends(first[name], commit) {
        assert(has_move(world, chosen, plan, name, commit));
        assert(plan.contains(moved));
    }
}

/// When a dry run succeeds, it has printed that a temporary branch is made at each commit that
/// shares its tree with another and has no branch, unless it is the root.
pub proof fn the_plan_has_every_branch(
    world: World,
    first: Refs,
    options: Options,
    root: Oid,
    replies: Seq<Reply>,
    commit: Oid,
    other: Oid,
)
    requires
        world.wf(),
        options.dry_run,
        world.is_honest(first, start(options, root), replies),
        replay(start(options, root), replies).0.request() == Request::Finished(Outcome::Success),
        world.is_in_play(first, commit),
        world.is_in_play(first, other),
        commit != other,
        commit != world.root,
        (world.tree)(commit) == (world.tree)(other),
        forall|name: Text| #[trigger]
            first.contains_key(name) && "refs/heads/"@.is_prefix_of(name) ==> first[name] != commit,
    ensures
        replay(start(options, root), replies).1.contains(
            Effect::Print(
                "  Step 0: create temp branch refs/heads/gto/"@ + hex(commit.bytes@) + " for "@
                    + hex(commit.bytes@),
            ),
        ),
{
    let (run, effects) = replay(start(options, root), replies);
    lemma_drafts(world, first, options, root, replies);
    lemma_in_play(world, first, commit);
    lemma_in_play(world, first, other);
    assert(world.is_in_scope(first, other));
    assert(is_shared(world, first, commit));
    names_are_told_by_how_they_begin(Seq::empty(), commit);
    assert(!is_manned(first, commit)) by {
        if is_manned(first, commit) {
            let name = choose|name: Text| #[trigger]
                first.contains_key(name) && is_head(name) && first[name] == commit;
            names_are_told_by_how_they_begin(name, commit);
        }
    }
    let item = branching_plan(commit);
    assert(run.ledger.plan.contains(item));
    reveal_strlit("  ");
    reveal_strlit("Step 0: create temp branch ");
    reveal_strlit("refs/heads/gto/");
    reveal_strlit("  Step 0: create temp branch refs/heads/gto/");
    assert("  "@ + item =~= "  Step 0: create temp branch refs/heads/gto/"@ + hex(commit.bytes@)
        + " for "@ + hex(commit.bytes@));
}

} // verus!
