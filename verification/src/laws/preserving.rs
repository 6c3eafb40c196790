//! What becomes of branches over a whole run.
use vstd::prelude::*;
use crate::canonical::{
    canonicals, duplicates, every_commit_has_a_canonical, known, lemma_known, CommitInfo,
};
use crate::laws::choosing::canonicals_are_shallow_and_old;
use crate::laws::soundness::{
    dry_runs_change_nothing, giving_up_restores, is_line, lemma_temporary_branches, restores,
};
use crate::laws::world::{
    course, holds, lemma_course, lemma_listed, lemma_perform_add, lemma_perform_lines,
    lemma_perform_one, lemma_perform_push, lemma_tag_name, lemma_temporary_names, perform, Refs,
    World,
};
use crate::messages::{
    branching_plan, cleaning, finished, fixpoint, moving, moving_plan, moving_tags, nothing_to_do,
    plan_begins, round_begins, too_many_rounds, Pattern,
};
use crate::model::{
    delete_branches, leading, listed, print_branching, print_left, print_plan, restore, start, succ,
    Effect, Goal, Ledger, Options, Outcome, Pass, Reply, Request, Run, Scan, Stage, Survey, Sweep,
};
use crate::oid::Oid;
use crate::refs::{
    is_head, is_temporary, local_refs_are_sorted, movable, name_less,
    name_less_is_strict_total_order, sorted, tags_of, temporary_branch, temporary_branches, Failure,
    Ref,
};
use crate::text::{trimmed, Text};
use crate::walk::{candidates, is_moved, others, with_root, Candidate};
use crate::rewrites::{after, is_end};
use crate::laws::tagging::tags_follow_their_commits;
use crate::laws::replay::replay;

verus! {

/// Each branch, but for temporary ones, is still there, at a commit with the tree that it had.
pub open spec fn agrees(world: World, first: Refs, refs: Refs) -> bool {
    forall|name: Text| #[trigger]
        first.contains_key(name) && is_head(name) && !is_temporary(name) ==> refs.contains_key(name)
            && (world.tree)(refs[name]) == (world.tree)(first[name])
}

/// The commit is the root or above it.
pub open spec fn is_listed(world: World, commit: Oid) -> bool {
    commit == world.root || !world.reaches(world.root, commit)
}

/// The canonical commit has the tree of the other, and is not deeper.
pub open spec fn pair_ok(world: World, candidate: Candidate) -> bool {
    &&& (world.tree)(candidate.canonical) == (world.tree)(candidate.commit)
    &&& world.depth(candidate.canonical) <= world.depth(candidate.commit)
    &&& is_listed(world, candidate.canonical)
}

/// What a run has noted is so.
pub open spec fn notes_ok(world: World, first: Refs, ledger: Ledger) -> bool {
    &&& forall|i: int| 0 <= i < ledger.initial.len() ==> holds(first, #[trigger] ledger.initial[i])
    &&& forall|c: Oid| #[trigger]
        ledger.depths.contains_key(c) ==> ledger.depths[c] == world.depth(c)
    &&& forall|c: Oid| #[trigger]
        ledger.canonicals.contains_key(c) ==> pair_ok(
            world,
            Candidate { commit: c, canonical: ledger.canonicals[c] },
        )
    &&& keeps_trees(world, ledger.rewrites)
    &&& keeps_trees(world, ledger.duplicates)
}

/// Each commit is led to one with its tree.
pub open spec fn keeps_trees(world: World, map: Map<Oid, Oid>) -> bool {
    forall|c: Oid| #[trigger]
        map.contains_key(c) ==> (world.tree)(map[c]) == (world.tree)(c)
}

/// What a run has learned of commits is so.
pub open spec fn infos_ok(world: World, infos: Seq<CommitInfo>) -> bool {
    forall|i: int|
        0 <= i < infos.len() ==> (#[trigger] infos[i]) == world.fact(infos[i].oid) && is_listed(
            world,
            infos[i].oid,
        )
}

/// The commits are the root or above it.
pub open spec fn oids_ok(world: World, commits: Seq<Oid>) -> bool {
    forall|i: int| 0 <= i < commits.len() ==> is_listed(world, #[trigger] commits[i])
}

/// The candidates are pairs of a duplicate and its canonical commit.
pub open spec fn pairs_ok(world: World, pairs: Seq<Candidate>) -> bool {
    forall|i: int| 0 <= i < pairs.len() ==> pair_ok(world, #[trigger] pairs[i])
}

/// The pass is at pairs of a duplicate and its canonical commit.
pub open spec fn scan_ok(world: World, scan: Scan) -> bool {
    pair_ok(world, scan.current) && pairs_ok(world, scan.rest)
}

/// The branches stand where the run has found them.
pub open spec fn heads_ok(refs: Refs, heads: Seq<Ref>) -> bool {
    &&& sorted(heads)
    &&& forall|i: int| 0 <= i < heads.len() ==> holds(refs, #[trigger] heads[i])
}

/// The branch that may have to move stands where the run has found it, and so do those after it.
pub open spec fn sweep_ok(world: World, refs: Refs, sweep: Sweep) -> bool {
    &&& scan_ok(world, sweep.scan)
    &&& heads_ok(refs, seq![sweep.head] + sweep.rest)
}

/// A branch that moves is above the duplicate.
pub open spec fn move_ok(world: World, refs: Refs, sweep: Sweep) -> bool {
    &&& sweep_ok(world, refs, sweep)
    &&& world.descends(sweep.head.target, sweep.scan.current.commit)
}

/// The commits that are left to copy end with the one at which the branch stands. On top of
/// `parent` they do not make it deeper, if the duplicate is above the root.
pub open spec fn copies_ok(world: World, sweep: Sweep, parent: Oid, commits: Seq<Oid>) -> bool {
    &&& commits.len() > 0
    &&& commits.last() == sweep.head.target
    &&& is_listed(world, parent)
    &&& world.reaches(sweep.scan.current.commit, world.root) ==> world.depth(parent) + commits.len()
        <= world.depth(sweep.head.target)
}

/// What a run goes by at its stage is so.
pub open spec fn stage_ok(world: World, first: Refs, refs: Refs, stage: Stage) -> bool {
    match stage {
        Stage::Worktree => refs == first,
        Stage::Root => refs == first,
        Stage::AllRefs => refs == first,
        Stage::Descent { kept, current, rest } => {
            &&& refs == first
            &&& forall|i: int| 0 <= i < kept.len() ==> holds(first, #[trigger] kept[i])
            &&& holds(first, current)
            &&& forall|i: int| 0 <= i < rest.len() ==> holds(first, #[trigger] rest[i])
        },
        Stage::Info { done, current, rest, .. } => {
            &&& infos_ok(world, done)
            &&& is_listed(world, current)
            &&& oids_ok(world, rest)
        },
        Stage::Depth { done, current, rest, tree, date, .. } => {
            &&& infos_ok(world, done)
            &&& is_listed(world, current)
            &&& oids_ok(world, rest)
            &&& tree == (world.tree)(current)
            &&& date == (world.date)(current)
        },
        Stage::Candidate(scan) => scan_ok(world, scan),
        Stage::KeepRef(scan) => scan_ok(world, scan),
        Stage::KeepCommit(scan) => scan_ok(world, scan),
        Stage::Branches(scan) => scan_ok(world, scan),
        Stage::Descends(sweep) => sweep_ok(world, refs, sweep),
        Stage::Tip(sweep) => move_ok(world, refs, sweep),
        Stage::Line { sweep, tip } => move_ok(world, refs, sweep) && tip == sweep.head.target,
        Stage::Signature { sweep, commits } => move_ok(world, refs, sweep) && copies_ok(
            world,
            sweep,
            sweep.scan.current.canonical,
            commits,
        ),
        Stage::Copy { sweep, parent, current, rest } => move_ok(world, refs, sweep) && copies_ok(
            world,
            sweep,
            parent,
            seq![current] + rest,
        ),
        _ => true,
    }
}

/// What holds of the references `refs` and of a run that began with `first`: branches have kept
/// their trees, and what the run knows is so.
pub open spec fn grounded(world: World, first: Refs, refs: Refs, run: Run) -> bool {
    &&& agrees(world, first, refs)
    &&& notes_ok(world, first, run.ledger)
    &&& run.stage is Worktree || run.stage is Root || run.stage is Finished || run.ledger.root
        == world.root
    &&& stage_ok(world, first, refs, run.stage)
}

/// What holds of a run between two stages.
spec fn base_ok(world: World, first: Refs, refs: Refs, ledger: Ledger) -> bool {
    &&& world.wf()
    &&& agrees(world, first, refs)
    &&& notes_ok(world, first, ledger)
    &&& ledger.root == world.root
}

proof fn lemma_restore(world: World, first: Refs, refs: Refs, found: Seq<Ref>, message: Text)
    requires
        agrees(world, first, refs),
        forall|i: int| 0 <= i < found.len() ==> holds(first, #[trigger] found[i]),
    ensures
        agrees(world, first, perform(refs, restore(found, message))),
    decreases found.len(),
{
    let effects = restore(found, message);
    if found.len() > 0 {
        let front = found.drop_last();
        assert forall|i: int| 0 <= i < front.len() implies holds(first, #[trigger] front[i]) by {
            assert(front[i] == found[i]);
        }
        lemma_restore(world, first, refs, front, message);
        assert(effects.drop_last() =~= restore(front, message));
        assert(holds(first, found[found.len() - 1]));
    }
}

proof fn lemma_begin_round(
    world: World,
    first: Refs,
    refs: Refs,
    ledger: Ledger,
    effects: Seq<Effect>,
)
    requires
        base_ok(world, first, perform(refs, effects), ledger),
    ensures
        grounded(
            world,
            first,
            perform(refs, ledger.begin_round(effects).1),
            ledger.begin_round(effects).0,
        ),
{
    let round = succ(ledger.round);
    let said = effects.push(Effect::Print(round_begins(round)));
    let warned = said.push(Effect::Warn(too_many_rounds(ledger.options.max_rounds)));
    lemma_perform_push(refs, effects, Effect::Print(round_begins(round)));
    lemma_perform_push(refs, said, Effect::Warn(too_many_rounds(ledger.options.max_rounds)));
    let restored = restore(ledger.initial, "rollback"@);
    lemma_perform_add(refs, warned, restored);
    lemma_restore(world, first, perform(refs, warned), ledger.initial, "rollback"@);
}

proof fn lemma_tag(
    world: World,
    first: Refs,
    refs: Refs,
    ledger: Ledger,
    tags: Seq<Ref>,
    effects: Seq<Effect>,
)
    requires
        base_ok(world, first, perform(refs, effects), ledger),
    ensures
        grounded(
            world,
            first,
            perform(refs, ledger.tag(tags, effects).1),
            ledger.tag(tags, effects).0,
        ),
    decreases tags.len(),
{
    lemma_perform_push(refs, effects, Effect::Print(cleaning()));
    if tags.len() > 0 {
        lemma_tag(world, first, refs, ledger, tags.drop_first(), effects);
    }
}

proof fn lemma_tags(world: World, first: Refs, refs: Refs, ledger: Ledger, effects: Seq<Effect>)
    requires
        base_ok(world, first, perform(refs, effects), ledger),
    ensures
        grounded(world, first, perform(refs, ledger.tags(effects).1), ledger.tags(effects).0),
{
    let tags = tags_of(ledger.initial);
    if ledger.options.dry_run {
        let begun = effects.push(Effect::Print(plan_begins()));
        lemma_perform_push(refs, effects, Effect::Print(plan_begins()));
        lemma_perform_lines(refs, begun, print_plan(ledger.plan));
        let planned = begun + print_plan(ledger.plan);
        let restored = restore(ledger.initial, "rollback_dry_run"@);
        lemma_perform_add(refs, planned, restored);
        lemma_restore(world, first, perform(refs, planned), ledger.initial, "rollback_dry_run"@);
        lemma_perform_lines(refs, planned + restored, seq![Effect::Print(finished())]);
    } else if ledger.options.move_tags {
        lemma_perform_push(refs, effects, Effect::Print(moving_tags()));
        lemma_tag(world, first, refs, ledger, tags, effects.push(Effect::Print(moving_tags())));
    } else {
        let left = print_left(tags, ledger.duplicates);
        lemma_perform_lines(refs, effects, left);
        lemma_perform_push(refs, effects + left, Effect::Print(cleaning()));
    }
}

proof fn lemma_scan(
    world: World,
    first: Refs,
    refs: Refs,
    ledger: Ledger,
    pass: Pass,
    pairs: Seq<Candidate>,
    effects: Seq<Effect>,
)
    requires
        base_ok(world, first, perform(refs, effects), ledger),
        pairs_ok(world, pairs),
    ensures
        grounded(
            world,
            first,
            perform(refs, ledger.scan(pass, pairs, effects).1),
            ledger.scan(pass, pairs, effects).0,
        ),
{
    if pairs.len() == 0 && !pass.changed && pass.pattern == Pattern::Shallow {
        if !ledger.changed && !ledger.added {
            let line = Effect::Print(fixpoint(ledger.round));
            lemma_perform_push(refs, effects, line);
            lemma_tags(world, first, refs, ledger, effects.push(line));
        } else {
            lemma_begin_round(world, first, refs, ledger, effects);
        }
    }
}

proof fn lemma_sweep(
    world: World,
    first: Refs,
    refs: Refs,
    ledger: Ledger,
    scan: Scan,
    heads: Seq<Ref>,
    effects: Seq<Effect>,
)
    requires
        base_ok(world, first, perform(refs, effects), ledger),
        scan_ok(world, scan),
        heads_ok(perform(refs, effects), heads),
    ensures
        grounded(
            world,
            first,
            perform(refs, ledger.sweep(scan, heads, effects).1),
            ledger.sweep(scan, heads, effects).0,
        ),
{
    if heads.len() == 0 {
        lemma_scan(world, first, refs, ledger, scan.pass, scan.rest, effects);
    } else {
        assert(seq![heads[0]] + heads.drop_first() =~= heads);
    }
}

proof fn lemma_relocated(
    world: World,
    first: Refs,
    refs: Refs,
    ledger: Ledger,
    sweep: Sweep,
    effects: Seq<Effect>,
)
    requires
        base_ok(world, first, perform(refs, effects), ledger),
        scan_ok(world, sweep.scan),
        heads_ok(perform(refs, effects), sweep.rest),
    ensures
        grounded(
            world,
            first,
            perform(refs, ledger.relocated(sweep, effects).1),
            ledger.relocated(sweep, effects).0,
        ),
{
    let scan = Scan { pass: Pass { changed: true, ..sweep.scan.pass }, ..sweep.scan };
    lemma_sweep(
        world,
        first,
        refs,
        Ledger { changed: true, ..ledger },
        scan,
        sweep.rest,
        effects,
    );
}

/// The branches after the first one.
pub(crate) proof fn lemma_rest_ok(world: World, refs: Refs, sweep: Sweep)
    requires
        sweep_ok(world, refs, sweep),
    ensures
        heads_ok(refs, sweep.rest),
        holds(refs, sweep.head),
        forall|i: int|
            0 <= i < sweep.rest.len() ==> (#[trigger] sweep.rest[i]).name != sweep.head.name,
{
    let all = seq![sweep.head] + sweep.rest;
    assert(all[0] == sweep.head);
    assert forall|i: int| 0 <= i < sweep.rest.len() implies holds(refs, #[trigger] sweep.rest[i])
        && sweep.rest[i].name != sweep.head.name by {
        assert(all[i + 1] == sweep.rest[i]);
        name_less_is_strict_total_order(sweep.head.name, sweep.head.name, sweep.head.name);
        assert(name_less(all[0].name, all[i + 1].name));
    }
    assert forall|i: int, j: int| 0 <= i < j < sweep.rest.len() implies name_less(
        sweep.rest[i].name,
        sweep.rest[j].name,
    ) by {
        assert(all[i + 1] == sweep.rest[i]);
        assert(all[j + 1] == sweep.rest[j]);
    }
}

/// The branch goes to the copy of the commit at which it stood.
proof fn lemma_moved(
    world: World,
    first: Refs,
    refs: Refs,
    ledger: Ledger,
    sweep: Sweep,
    copy: Oid,
)
    requires
        base_ok(world, first, refs, ledger),
        sweep_ok(world, refs, sweep),
        (world.tree)(copy) == (world.tree)(sweep.head.target),
    ensures
        ({
            let step = ledger.copy(sweep, copy, Seq::empty());
            grounded(world, first, perform(refs, step.1), step.0)
        }),
{
    let moved = Effect::SetRef {
        name: sweep.head.name,
        target: copy,
        message: "rebase_branch_onto"@,
    };
    lemma_rest_ok(world, refs, sweep);
    lemma_perform_one(refs, moved);
    lemma_relocated(world, first, refs, ledger, sweep, seq![moved]);
}

proof fn lemma_branch(
    world: World,
    first: Refs,
    refs: Refs,
    ledger: Ledger,
    missing: Seq<Oid>,
    effects: Seq<Effect>,
)
    requires
        base_ok(world, first, perform(refs, effects), ledger),
    ensures
        grounded(
            world,
            first,
            perform(refs, ledger.branch(missing, effects).1),
            ledger.branch(missing, effects).0,
        ),
{
    lemma_perform_lines(refs, effects, print_branching(missing));
    if missing.len() > 0 {
        lemma_perform_push(
            refs,
            effects,
            Effect::Print(crate::messages::branching(missing[0])),
        );
    }
}

pub(crate) proof fn lemma_infos(world: World, infos: Seq<CommitInfo>)
    requires
        infos_ok(world, infos),
    ensures
        forall|c: Oid| #[trigger]
            known(infos).contains_key(c) ==> known(infos)[c] == world.fact(c) && is_listed(
                world,
                c,
            ),
    decreases infos.len(),
{
    if infos.len() > 0 {
        let front = infos.drop_last();
        assert forall|i: int| 0 <= i < front.len() implies (#[trigger] front[i]) == world.fact(
            front[i].oid,
        ) && is_listed(world, front[i].oid) by {
            assert(front[i] == infos[i]);
        }
        lemma_infos(world, front);
        let last = infos[infos.len() - 1];
        assert(last == world.fact(last.oid));
        assert forall|c: Oid| #[trigger] known(infos).contains_key(c) implies known(infos)[c]
            == world.fact(c) && is_listed(world, c) by {
            if c != last.oid {
                assert(known(front).contains_key(c));
            }
        }
    }
}

pub(crate) proof fn lemma_depth_fits(world: World, commit: Oid)
    requires
        world.wf(),
    ensures
        world.depth(commit) <= usize::MAX,
        world.range(commit, world.root).finite(),
{
    assert((world.reach)(commit).finite());
    vstd::set_lib::lemma_len_subset(world.range(commit, world.root), (world.reach)(commit));
}

proof fn lemma_pairs(world: World, infos: Seq<CommitInfo>)
    requires
        world.wf(),
        infos_ok(world, infos),
    ensures
        forall|c: Oid| #[trigger]
            canonicals(infos).contains_key(c) ==> pair_ok(
                world,
                Candidate { commit: c, canonical: canonicals(infos)[c] },
            ),
{
    lemma_infos(world, infos);
    lemma_known(infos);
    assert forall|c: Oid| #[trigger] canonicals(infos).contains_key(c) implies pair_ok(
        world,
        Candidate { commit: c, canonical: canonicals(infos)[c] },
    ) by {
        let k = canonicals(infos)[c];
        every_commit_has_a_canonical(infos, c);
        canonicals_are_shallow_and_old(infos, c, c);
        assert(known(infos).contains_key(c));
        assert(known(infos).contains_key(k));
        lemma_depth_fits(world, c);
        lemma_depth_fits(world, k);
    }
}

proof fn lemma_survey(
    world: World,
    first: Refs,
    refs: Refs,
    ledger: Ledger,
    survey: Survey,
    done: Seq<CommitInfo>,
    commits: Seq<Oid>,
)
    requires
        base_ok(world, first, refs, ledger),
        infos_ok(world, done),
        oids_ok(world, commits),
    ensures
        ({
            let step = ledger.survey(survey, done, commits);
            grounded(world, first, perform(refs, step.1), step.0)
        }),
{
    if commits.len() == 0 {
        match survey {
            Survey::Initial => {
                lemma_pairs(world, done);
                assert forall|c: Oid| #[trigger] duplicates(done).contains_key(c) implies (
                world.tree)(duplicates(done)[c]) == (world.tree)(c) by {
                    assert(canonicals(done).contains_key(c));
                }
                lemma_begin_round(
                    world,
                    first,
                    refs,
                    Ledger { duplicates: duplicates(done), ..ledger },
                    Seq::empty(),
                );
            },
            Survey::Round => {
                lemma_pairs(world, done);
            },
        }
    } else {
        assert(is_listed(world, commits[0]));
        assert forall|i: int| 0 <= i < commits.drop_first().len() implies is_listed(
            world,
            #[trigger] commits.drop_first()[i],
        ) by {
            assert(commits.drop_first()[i] == commits[i + 1]);
        }
    }
}

proof fn lemma_walked(
    world: World,
    first: Refs,
    refs: Refs,
    ledger: Ledger,
    goal: Goal,
    commits: Seq<Oid>,
)
    requires
        base_ok(world, first, refs, ledger),
        oids_ok(world, commits),
    ensures
        ({
            let step = ledger.walked(goal, commits);
            grounded(world, first, perform(refs, step.1), step.0)
        }),
{
    match goal {
        Goal::Initial => {
            lemma_survey(world, first, refs, ledger, Survey::Initial, Seq::empty(), commits);
        },
        Goal::Round => {
            lemma_perform_one(refs, Effect::Print(nothing_to_do()));
            lemma_tags(world, first, refs, ledger, seq![Effect::Print(nothing_to_do())]);
        },
        Goal::Canonicals => {
            lemma_survey(world, first, refs, ledger, Survey::Round, Seq::empty(), commits);
        },
        Goal::Pass(pass) => {
            let moved = is_moved(ledger.canonicals);
            let rest = others(commits, ledger.root);
            let pairs = candidates(commits, ledger.canonicals, ledger.root);
            assert forall|i: int| 0 <= i < pairs.len() implies pair_ok(
                world,
                #[trigger] pairs[i],
            ) by {
                rest.lemma_filter_pred(moved, i);
            }
            lemma_scan(world, first, refs, ledger, pass, pairs, Seq::empty());
        },
    }
}

proof fn lemma_learned(
    world: World,
    first: Refs,
    refs: Refs,
    ledger: Ledger,
    survey: Survey,
    done: Seq<CommitInfo>,
    info: CommitInfo,
    rest: Seq<Oid>,
)
    requires
        base_ok(world, first, refs, ledger),
        infos_ok(world, done),
        info == world.fact(info.oid),
        is_listed(world, info.oid),
        oids_ok(world, rest),
    ensures
        ({
            let step = ledger.survey(survey, done.push(info), rest);
            grounded(world, first, perform(refs, step.1), step.0)
        }),
{
    lemma_survey(world, first, refs, ledger, survey, done.push(info), rest);
}

proof fn lemma_leading(refs: Seq<Ref>, root: Oid)
    ensures
        0 <= leading(refs, root) <= refs.len(),
    decreases refs.len(),
{
    if refs.len() > 0 && refs[0].target == root {
        lemma_leading(refs.drop_first(), root);
    }
}

proof fn lemma_sift(world: World, first: Refs, ledger: Ledger, kept: Seq<Ref>, found: Seq<Ref>)
    requires
        base_ok(world, first, first, ledger),
        forall|i: int| 0 <= i < kept.len() ==> holds(first, #[trigger] kept[i]),
        forall|i: int| 0 <= i < found.len() ==> holds(first, #[trigger] found[i]),
    ensures
        ({
            let step = ledger.sift(kept, found);
            grounded(world, first, perform(first, step.1), step.0)
        }),
{
    lemma_leading(found, ledger.root);
    let n = leading(found, ledger.root);
    if n < found.len() {
        let all = kept + found.take(n);
        assert forall|i: int| 0 <= i < all.len() implies holds(first, #[trigger] all[i]) by {
            if i >= kept.len() {
                assert(all[i] == found[i - kept.len()]);
            }
        }
        assert forall|i: int| 0 <= i < found.skip(n + 1).len() implies holds(
            first,
            #[trigger] found.skip(n + 1)[i],
        ) by {
            assert(found.skip(n + 1)[i] == found[i + n + 1]);
        }
    } else {
        let all = kept + found;
        assert forall|i: int| 0 <= i < all.len() implies holds(first, #[trigger] all[i]) by {
            if i >= kept.len() {
                assert(all[i] == found[i - kept.len()]);
            }
        }
        lemma_perform_one(
            first,
            Effect::Print(crate::messages::optimizing(ledger.options.root_name, ledger.root)),
        );
        lemma_perform_one(
            first,
            Effect::Warn(crate::messages::no_refs(ledger.options.root_name, ledger.root)),
        );
    }
}

/// The branches that a listing gives stand where it says, in order.
pub(crate) proof fn lemma_movable(refs: Refs, found: Seq<Ref>, commit: Oid)
    requires
        sorted(found),
        forall|i: int| 0 <= i < found.len() ==> holds(refs, #[trigger] found[i]),
    ensures
        heads_ok(refs, movable(found, commit)),
    decreases found.len(),
{
    let wanted = |r: Ref| crate::refs::is_movable(r.name) && r.target != commit;
    reveal(Seq::filter);
    if found.len() > 0 {
        let front = found.drop_last();
        let before = front.filter(wanted);
        assert forall|i: int| 0 <= i < front.len() implies holds(refs, #[trigger] front[i]) by {
            assert(front[i] == found[i]);
        }
        lemma_movable(refs, front, commit);
        assert(movable(front, commit) == before);
        assert(holds(refs, found[found.len() - 1]));
        assert forall|i: int| 0 <= i < before.len() implies name_less(
            (#[trigger] before[i]).name,
            found.last().name,
        ) by {
            assert(before.contains(before[i]));
            front.lemma_filter_contains_rev(wanted, before[i]);
            let k = choose|k: int| 0 <= k < front.len() && front[k] == before[i];
            assert(found[k] == before[i]);
        }
    }
}

proof fn lemma_line(world: World, sweep: Sweep, commits: Seq<Oid>)
    requires
        world.wf(),
        scan_ok(world, sweep.scan),
        world.descends(sweep.head.target, sweep.scan.current.commit),
        commits.no_duplicates(),
        commits.to_set() == world.range(sweep.head.target, sweep.scan.current.commit),
        forall|i: int, j: int|
            0 <= i < j < commits.len() ==> !world.reaches(
                #[trigger] commits[i],
                #[trigger] commits[j],
            ),
    ensures
        copies_ok(world, sweep, sweep.scan.current.canonical, commits),
{
    let tip = sweep.head.target;
    let dup = sweep.scan.current.commit;
    let range = world.range(tip, dup);
    assert(world.reaches(tip, tip));
    assert(world.reaches(tip, dup));
    if world.reaches(dup, tip) {
        assert(tip == dup);
    }
    assert(range.contains(tip));
    assert(commits.to_set().contains(tip));
    let i = choose|i: int| 0 <= i < commits.len() && commits[i] == tip;
    if i < commits.len() - 1 {
        let last = commits[commits.len() - 1];
        assert(commits.to_set().contains(last));
        assert(world.reaches(tip, last));
        assert(!world.reaches(commits[i], commits[commits.len() - 1]));
    }
    commits.unique_seq_to_set();
    if world.reaches(dup, world.root) {
        let all = world.range(tip, world.root);
        let below = world.range(dup, world.root);
        assert((world.reach)(tip).finite());
        assert((world.reach)(dup).finite());
        assert(all =~= range.union(below)) by {
            assert forall|c: Oid| all.contains(c) <==> range.contains(c) || below.contains(c) by {
                if range.contains(c) {
                    assert(!world.reaches(dup, c));
                    if world.reaches(world.root, c) {
                        assert(world.reaches(dup, c));
                    }
                }
                if below.contains(c) {
                    assert(world.reaches(dup, c));
                    assert(world.reaches(tip, c));
                }
                if all.contains(c) && !range.contains(c) {
                    assert((world.reach)(dup).contains(c));
                }
            }
        }
        assert(range.disjoint(below));
        vstd::set_lib::lemma_set_disjoint_lens(range, below);
    }
}

/// A copy is one commit deeper than its parent.
pub(crate) proof fn lemma_copied(world: World, parent: Oid, copy: Oid)
    requires
        world.wf(),
        is_listed(world, parent),
        (world.reach)(copy) == (world.reach)(parent).insert(copy),
        !world.reaches(parent, copy),
    ensures
        world.depth(copy) == world.depth(parent) + 1,
        is_listed(world, copy),
{
    assert(world.reaches(parent, parent));
    assert(world.reaches(copy, parent));
    if world.reaches(world.root, copy) {
        assert(world.reaches(world.root, parent));
    }
    lemma_depth_fits(world, parent);
    assert(world.range(copy, world.root) =~= world.range(parent, world.root).insert(copy));
}

proof fn lemma_deleted(world: World, first: Refs, refs: Refs, names: Seq<Text>)
    requires
        agrees(world, first, refs),
        forall|i: int| 0 <= i < names.len() ==> "gto/"@.is_prefix_of(#[trigger] names[i]),
    ensures
        agrees(world, first, perform(refs, delete_branches(names))),
    decreases names.len(),
{
    if names.len() > 0 {
        let front = names.drop_last();
        assert forall|i: int| 0 <= i < front.len() implies "gto/"@.is_prefix_of(
            #[trigger] front[i],
        ) by {
            assert(front[i] == names[i]);
        }
        lemma_deleted(world, first, refs, front);
        assert(delete_branches(names).drop_last() =~= delete_branches(front));
        assert("gto/"@.is_prefix_of(names[names.len() - 1]));
        lemma_temporary_names(names.last());
    }
}

proof fn lemma_start(world: World, first: Refs, options: Options, root: Oid)
    ensures
        grounded(world, first, first, start(options, root)),
{
}

proof fn lemma_preflight(world: World, first: Refs, run: Run, reply: Reply)
    requires
        world.wf(),
        grounded(world, first, first, run),
        world.tells(first, run.request(), reply),
        crate::laws::soundness::is_preflight(run.stage),
    ensures
        grounded(world, first, perform(first, run.advance(reply).1), run.advance(reply).0),
{
    let ledger = run.ledger;
    match (run.stage, reply) {
        (Stage::Worktree, Reply::Count(_)) => {
            lemma_perform_one(first, Effect::Warn(crate::messages::dirty()));
        },
        (Stage::Root, Reply::Commit(_)) => {
            lemma_perform_one(
                first,
                Effect::Warn(crate::messages::invalid_root(ledger.options.root_name)),
            );
        },
        (Stage::AllRefs, Reply::Refs(refs)) => {
            if let Ok(records) = refs {
                lemma_listed(first, records);
                let found = listed(refs)->Ok_0;
                assert forall|i: int| 0 <= i < found.len() implies holds(
                    first,
                    #[trigger] found[i],
                ) by {
                    assert(found.contains(found[i]));
                }
                lemma_sift(world, first, ledger, Seq::empty(), found);
            }
        },
        (Stage::Descent { kept, current, rest }, Reply::Answer(answer)) => {
            lemma_sift(
                world,
                first,
                ledger,
                if answer == Ok::<bool, Failure>(true) {
                    kept.push(current)
                } else {
                    kept
                },
                rest,
            );
        },
        _ => {},
    }
}

proof fn lemma_survey_step(world: World, first: Refs, refs: Refs, run: Run, reply: Reply)
    requires
        world.wf(),
        grounded(world, first, refs, run),
        world.tells(refs, run.request(), reply),
        run.stage is WalkNames || run.stage is Walk || run.stage is Info || run.stage is Depth,
    ensures
        grounded(world, first, perform(refs, run.advance(reply).1), run.advance(reply).0),
{
    let ledger = run.ledger;
    match (run.stage, reply) {
        (Stage::WalkNames(goal), Reply::Refs(_)) => {
            lemma_walked(world, first, refs, ledger, goal, Seq::empty());
        },
        (Stage::Walk { goal, .. }, Reply::Commits(Ok(commits))) => {
            let all = with_root(commits, ledger.root);
            assert forall|i: int| 0 <= i < all.len() implies is_listed(
                world,
                #[trigger] all[i],
            ) by {
                if all[i] != world.root {
                    if commits.contains(ledger.root) {
                        assert(commits.contains(all[i]));
                    } else {
                        assert(all[i] == commits[i - 1]);
                        assert(commits.contains(all[i]));
                    }
                }
            }
            lemma_walked(world, first, refs, ledger, goal, all);
        },
        (Stage::Info { survey, done, current, rest }, Reply::TreeAndDate(Ok((tree, date)))) => {
            if current == ledger.root {
                assert(world.range(world.root, world.root) =~= Set::empty());
                let info = CommitInfo { tree_id: tree, depth: 0, cdate: date, oid: current };
                lemma_learned(world, first, refs, ledger, survey, done, info, rest);
            } else if ledger.depths.contains_key(current) {
                let info = CommitInfo {
                    tree_id: tree,
                    depth: ledger.depths[current],
                    cdate: date,
                    oid: current,
                };
                lemma_learned(world, first, refs, ledger, survey, done, info, rest);
            }
        },
        (Stage::Depth { survey, done, current, rest, tree, date }, Reply::Count(Ok(depth))) => {
            let info = CommitInfo { tree_id: tree, depth, cdate: date, oid: current };
            let next = Ledger { depths: ledger.depths.insert(current, depth), ..ledger };
            lemma_learned(world, first, refs, next, survey, done, info, rest);
        },
        _ => {},
    }
}

proof fn lemma_scan_step(world: World, first: Refs, refs: Refs, run: Run, reply: Reply)
    requires
        world.wf(),
        grounded(world, first, refs, run),
        world.tells(refs, run.request(), reply),
        run.stage is Candidate || run.stage is KeepRef || run.stage is KeepCommit
            || run.stage is Branches || run.stage is Descends,
    ensures
        grounded(world, first, perform(refs, run.advance(reply).1), run.advance(reply).0),
{
    let ledger = run.ledger;
    match (run.stage, reply) {
        (Stage::Candidate(scan), Reply::Answer(_)) => {
            lemma_scan(world, first, refs, ledger, scan.pass, scan.rest, Seq::empty());
        },
        (Stage::KeepCommit(scan), Reply::Found(_)) => {
            let name = crate::refs::keep_branch(scan.current.commit);
            lemma_perform_one(
                refs,
                Effect::CreateBranch { name, target: scan.current.commit },
            );
        },
        (Stage::Branches(scan), Reply::Refs(Ok(records))) => {
            lemma_listed(refs, records);
            local_refs_are_sorted(records);
            let found = crate::refs::local_refs(records)->Ok_0;
            assert forall|i: int| 0 <= i < found.len() implies holds(refs, #[trigger] found[i]) by {
                assert(found.contains(found[i]));
            }
            lemma_movable(refs, found, scan.current.commit);
            lemma_sweep(
                world,
                first,
                refs,
                ledger,
                scan,
                movable(found, scan.current.commit),
                Seq::empty(),
            );
        },
        (Stage::Descends(sweep), Reply::Answer(_)) => {
            let pass = sweep.scan.pass;
            let spot = sweep.scan.current;
            let planned = Ledger {
                plan: ledger.plan.push(
                    moving_plan(pass.pattern, sweep.head.name, spot.canonical, spot.commit),
                ),
                ..ledger
            };
            let said = Effect::Print(
                moving(pass.pattern, ledger.round, pass.number, sweep.head.name, spot.canonical),
            );
            lemma_rest_ok(world, refs, sweep);
            lemma_perform_one(refs, said);
            lemma_sweep(world, first, refs, ledger, sweep.scan, sweep.rest, Seq::empty());
            lemma_sweep(world, first, refs, planned, sweep.scan, sweep.rest, seq![said]);
        },
        _ => {},
    }
}

proof fn lemma_move_step(world: World, first: Refs, refs: Refs, run: Run, reply: Reply)
    requires
        world.wf(),
        grounded(world, first, refs, run),
        world.tells(refs, run.request(), reply),
        crate::laws::soundness::is_moving(run.stage),
    ensures
        grounded(world, first, perform(refs, run.advance(reply).1), run.advance(reply).0),
{
    let ledger = run.ledger;
    match (run.stage, reply) {
        (Stage::Tip(sweep), Reply::Commit(_)) => {
            lemma_rest_ok(world, refs, sweep);
            lemma_relocated(world, first, refs, ledger, sweep, Seq::empty());
        },
        (Stage::Line { sweep, .. }, Reply::Commits(commits)) => {
            lemma_rest_ok(world, refs, sweep);
            lemma_relocated(world, first, refs, ledger, sweep, Seq::empty());
            if let Ok(commits) = commits {
                lemma_line(world, sweep, commits);
            }
        },
        (Stage::Signature { sweep, commits }, Reply::Found(_)) => {
            lemma_rest_ok(world, refs, sweep);
            lemma_relocated(world, first, refs, ledger, sweep, Seq::empty());
            assert(seq![commits[0]] + commits.drop_first() =~= commits);
        },
        (Stage::Copy { sweep, parent, current, rest }, Reply::Commit(commit)) => {
            lemma_rest_ok(world, refs, sweep);
            lemma_relocated(world, first, refs, ledger, sweep, Seq::empty());
            if let Ok(copy) = commit {
                let next = Ledger { rewrites: ledger.rewrites.insert(current, copy), ..ledger };
                let all = seq![current] + rest;
                lemma_copied(world, parent, copy);
                if rest.len() == 0 {
                    assert(rest =~= Seq::<Oid>::empty());
                    assert(all.last() == current);
                    lemma_moved(world, first, refs, next, sweep, copy);
                } else {
                    assert(all.last() == rest.last());
                    assert(seq![rest[0]] + rest.drop_first() =~= rest);
                }
            }
        },
        _ => {},
    }
}

pub(crate) proof fn lemma_grounded_step(
    world: World,
    first: Refs,
    refs: Refs,
    run: Run,
    reply: Reply,
)
    requires
        world.wf(),
        grounded(world, first, refs, run),
        world.tells(refs, run.request(), reply),
    ensures
        grounded(world, first, perform(refs, run.advance(reply).1), run.advance(reply).0),
{
    let ledger = run.ledger;
    match (run.stage, reply) {
        (Stage::Worktree, _) => {
            lemma_preflight(world, first, run, reply);
        },
        (Stage::Root, _) => {
            lemma_preflight(world, first, run, reply);
        },
        (Stage::AllRefs, _) => {
            lemma_preflight(world, first, run, reply);
        },
        (Stage::Descent { .. }, _) => {
            lemma_preflight(world, first, run, reply);
        },
        (Stage::WalkNames(_), _) => {
            lemma_survey_step(world, first, refs, run, reply);
        },
        (Stage::Walk { .. }, _) => {
            lemma_survey_step(world, first, refs, run, reply);
        },
        (Stage::Info { .. }, _) => {
            lemma_survey_step(world, first, refs, run, reply);
        },
        (Stage::Depth { .. }, _) => {
            lemma_survey_step(world, first, refs, run, reply);
        },
        (Stage::Heads { shared }, Reply::Refs(found)) => {
            if let Ok(found) = listed(found) {
                lemma_branch(
                    world,
                    first,
                    refs,
                    ledger,
                    crate::refs::unbranched(shared, found, ledger.root),
                    Seq::empty(),
                );
            }
        },
        (Stage::Branch { current, rest }, Reply::Found(Ok(_))) => {
            let made = Effect::CreateBranch { name: temporary_branch(current), target: current };
            lemma_perform_one(refs, made);
            lemma_branch(
                world,
                first,
                refs,
                Ledger { added: true, plan: ledger.plan.push(branching_plan(current)), ..ledger },
                rest,
                seq![made],
            );
        },
        (Stage::Candidate(_), _) => {
            lemma_scan_step(world, first, refs, run, reply);
        },
        (Stage::KeepRef(_), _) => {
            lemma_scan_step(world, first, refs, run, reply);
        },
        (Stage::KeepCommit(_), _) => {
            lemma_scan_step(world, first, refs, run, reply);
        },
        (Stage::Branches(_), _) => {
            lemma_scan_step(world, first, refs, run, reply);
        },
        (Stage::Descends(_), _) => {
            lemma_scan_step(world, first, refs, run, reply);
        },
        (Stage::Tip(_), _) => {
            lemma_move_step(world, first, refs, run, reply);
        },
        (Stage::Line { .. }, _) => {
            lemma_move_step(world, first, refs, run, reply);
        },
        (Stage::Signature { .. }, _) => {
            lemma_move_step(world, first, refs, run, reply);
        },
        (Stage::Copy { .. }, _) => {
            lemma_move_step(world, first, refs, run, reply);
        },
        (Stage::Tag { tag, target, rest }, Reply::Found(Ok(_))) => {
            let name = trimmed(tag.name, "refs/tags/"@);
            let moved = Effect::SetTag { name, target };
            lemma_tag_name(name);
            lemma_perform_one(refs, moved);
            lemma_tag(world, first, refs, ledger, rest, seq![moved]);
        },
        (Stage::Cleanup, Reply::Refs(found)) => {
            let names = match found {
                Ok(records) => temporary_branches(records),
                Err(_) => Seq::empty(),
            };
            if let Ok(records) = found {
                lemma_temporary_branches(records);
            }
            lemma_deleted(world, first, refs, names);
            lemma_perform_lines(refs, delete_branches(names), seq![Effect::Print(finished())]);
        },
        _ => {},
    }
}

pub(crate) proof fn lemma_grounded(
    world: World,
    first: Refs,
    options: Options,
    root: Oid,
    replies: Seq<Reply>,
)
    requires
        world.wf(),
        world.is_honest(first, start(options, root), replies),
    ensures
        ({
            let (refs, run) = course(first, start(options, root), replies);
            grounded(world, first, refs, run)
        }),
    decreases replies.len(),
{
    if replies.len() == 0 {
        lemma_start(world, first, options, root);
    } else {
        lemma_grounded(world, first, options, root, replies.drop_last());
        let (refs, run) = course(first, start(options, root), replies.drop_last());
        lemma_grounded_step(world, first, refs, run, replies.last());
    }
}

/// At every moment of a run, and so whatever comes of it, each branch is there that was there when
/// the run began, but for temporary ones, and it stands at a commit with the tree that it had then.
pub proof fn branches_keep_their_trees(
    world: World,
    first: Refs,
    options: Options,
    root: Oid,
    replies: Seq<Reply>,
    name: Text,
)
    requires
        world.wf(),
        world.is_honest(first, start(options, root), replies),
        first.contains_key(name),
        is_head(name),
        !is_temporary(name),
    ensures
        ({
            let refs = course(first, start(options, root), replies).0;
            refs.contains_key(name) && (world.tree)(refs[name]) == (world.tree)(first[name])
        }),
{
    lemma_grounded(world, first, options, root, replies);
}

/// A branch that is moved goes to the copy of the commit at which it stands. If the duplicate is
/// above the root, it does not get deeper by that. Without this condition it may: where the branch
/// brings together the duplicate and commits that the root reaches and the duplicate does not, the
/// latter are copied as well.
pub proof fn moves_do_not_deepen(
    world: World,
    first: Refs,
    options: Options,
    root: Oid,
    replies: Seq<Reply>,
    sweep: Sweep,
    parent: Oid,
    current: Oid,
    copy: Oid,
)
    requires
        world.wf(),
        world.is_honest(first, start(options, root), replies),
        ({
            let (refs, run) = course(first, start(options, root), replies);
            &&& run.stage == (Stage::Copy { sweep, parent, current, rest: Seq::empty() })
            &&& world.tells(refs, run.request(), Reply::Commit(Ok(copy)))
        }),
    ensures
        ({
            let (refs, run) = course(first, start(options, root), replies);
            let noted = Ledger {
                rewrites: run.ledger.rewrites.insert(current, copy),
                ..run.ledger
            };
            &&& holds(refs, sweep.head)
            &&& current == sweep.head.target
            &&& run.advance(Reply::Commit(Ok(copy))) == noted.relocated(
                sweep,
                seq![
                    Effect::SetRef {
                        name: sweep.head.name,
                        target: copy,
                        message: "rebase_branch_onto"@,
                    },
                ],
            )
            &&& (world.tree)(copy) == (world.tree)(sweep.head.target)
            &&& world.reaches(sweep.scan.current.commit, world.root) ==> world.depth(copy)
                <= world.depth(sweep.head.target)
        }),
{
    lemma_grounded(world, first, options, root, replies);
    let (refs, run) = course(first, start(options, root), replies);
    lemma_rest_ok(world, refs, sweep);
    lemma_copied(world, parent, copy);
    let all = seq![current] + Seq::<Oid>::empty();
    assert(all.last() == current);
}

/// The rewrites of a commit lead to commits with its tree.
proof fn lemma_chain_tree(world: World, rewrites: Map<Oid, Oid>, commit: Oid, n: nat)
    requires
        keeps_trees(world, rewrites),
    ensures
        (world.tree)(after(rewrites, commit, n)) == (world.tree)(commit),
    decreases n,
{
    if n > 0 {
        lemma_chain_tree(world, rewrites, commit, (n - 1) as nat);
    }
}

/// A tag that is moved goes to a commit with the tree of the one at which it stood.
pub proof fn tags_keep_their_trees(
    world: World,
    first: Refs,
    options: Options,
    root: Oid,
    replies: Seq<Reply>,
    tag: Ref,
    target: Oid,
    rest: Seq<Ref>,
)
    requires
        world.wf(),
        world.is_honest(first, start(options, root), replies),
        course(first, start(options, root), replies).1.stage == (Stage::Tag { tag, target, rest }),
    ensures
        (world.tree)(target) == (world.tree)(tag.target),
        holds(first, tag),
{
    let run = course(first, start(options, root), replies).1;
    lemma_grounded(world, first, options, root, replies);
    lemma_course(first, start(options, root), replies);
    tags_follow_their_commits(options, root, replies, tag, target, rest);
    let rewrites = run.ledger.rewrites;
    let n = choose|n: nat| is_end(rewrites, #[trigger] after(rewrites, tag.target, n));
    lemma_chain_tree(world, rewrites, tag.target, n);
    let wanted = |r: Ref| crate::refs::is_tag(r.name);
    let initial = run.ledger.initial;
    initial.lemma_filter_contains_rev(wanted, tag);
    let i = choose|i: int| 0 <= i < initial.len() && initial[i] == tag;
    assert(holds(first, initial[i]));
}

/// References that are put back are there.
proof fn lemma_put_back(first: Refs, refs: Refs, found: Seq<Ref>, message: Text)
    requires
        forall|i: int| 0 <= i < found.len() ==> holds(first, #[trigger] found[i]),
    ensures
        forall|i: int|
            0 <= i < found.len() ==> holds(
                perform(refs, restore(found, message)),
                #[trigger] found[i],
            ),
    decreases found.len(),
{
    if found.len() > 0 {
        let front = found.drop_last();
        assert forall|i: int| 0 <= i < front.len() implies holds(first, #[trigger] front[i]) by {
            assert(front[i] == found[i]);
        }
        lemma_put_back(first, refs, front, message);
        assert(restore(found, message).drop_last() =~= restore(front, message));
        let last = found[found.len() - 1];
        assert(holds(first, last));
        assert forall|i: int| 0 <= i < found.len() implies holds(
            perform(refs, restore(found, message)),
            #[trigger] found[i],
        ) by {
            assert(holds(first, found[i]));
            if i < front.len() {
                assert(front[i] == found[i]);
                assert(holds(perform(refs, restore(front, message)), front[i]));
            }
        }
    }
}

/// After a run that has ended for want of rounds, and was not dry, each reference above the root
/// stands where it stood when the run began.
pub proof fn giving_up_leaves_references_as_found(
    world: World,
    first: Refs,
    options: Options,
    root: Oid,
    replies: Seq<Reply>,
    reply: Reply,
    r: Ref,
)
    requires
        world.wf(),
        !options.dry_run,
        world.is_honest(first, start(options, root), replies),
        ({
            let (refs, run) = course(first, start(options, root), replies);
            &&& world.tells(refs, run.request(), reply)
            &&& run.request() !is Finished
            &&& 0 < options.max_rounds < run.advance(reply).0.ledger.round
            &&& run.advance(reply).0.ledger.initial.contains(r)
        }),
    ensures
        ({
            let (refs, run) = course(first, start(options, root), replies);
            let step = run.advance(reply);
            &&& step.0.request() == Request::Finished(Outcome::Exit(1))
            &&& holds(perform(refs, step.1), r)
            &&& holds(first, r)
        }),
{
    let (refs, run) = course(first, start(options, root), replies);
    let step = run.advance(reply);
    let initial = step.0.ledger.initial;
    lemma_grounded(world, first, options, root, replies);
    lemma_grounded_step(world, first, refs, run, reply);
    lemma_course(first, start(options, root), replies);
    giving_up_restores(options, root, replies, reply);
    let n = step.1.len() - initial.len();
    assert(step.1.take(n) + step.1.skip(n) =~= step.1);
    lemma_perform_add(refs, step.1.take(n), step.1.skip(n));
    lemma_put_back(first, perform(refs, step.1.take(n)), initial, "rollback"@);
    let i = choose|i: int| 0 <= i < initial.len() && initial[i] == r;
    assert(holds(first, initial[i]));
    assert(holds(perform(refs, step.1), initial[i]));
}

/// Effects that are lines, or put references back to where they are, change nothing.
proof fn lemma_idle(first: Refs, found: Seq<Ref>, effects: Seq<Effect>)
    requires
        forall|i: int| 0 <= i < found.len() ==> holds(first, #[trigger] found[i]),
        forall|i: int|
            0 <= i < effects.len() ==> is_line(#[trigger] effects[i]) || restores(
                found,
                effects[i],
            ),
    ensures
        perform(first, effects) == first,
    decreases effects.len(),
{
    if effects.len() > 0 {
        let front = effects.drop_last();
        assert forall|i: int| 0 <= i < front.len() implies is_line(#[trigger] front[i])
            || restores(found, front[i]) by {
            assert(front[i] == effects[i]);
        }
        lemma_idle(first, found, front);
        let last = effects[effects.len() - 1];
        assert(is_line(last) || restores(found, last));
        if let Effect::SetRef { name, target, .. } = last {
            let r = Ref { name, target };
            let i = choose|i: int| 0 <= i < found.len() && found[i] == r;
            assert(holds(first, found[i]));
            assert(first.insert(name, target) =~= first);
        }
    }
}

/// The references after a run are what its effects have made of them.
pub(crate) proof fn lemma_course_refs(first: Refs, run: Run, replies: Seq<Reply>)
    ensures
        course(first, run, replies).0 == perform(first, replay(run, replies).1),
    decreases replies.len(),
{
    lemma_course(first, run, replies);
    if replies.len() > 0 {
        let front = replies.drop_last();
        lemma_course_refs(first, run, front);
        lemma_course(first, run, front);
        let before = replay(run, front);
        lemma_perform_add(first, before.1, before.0.advance(replies.last()).1);
    }
}

/// A dry run leaves all branches and tags where they are, at every moment.
pub proof fn dry_runs_leave_references_alone(
    world: World,
    first: Refs,
    options: Options,
    root: Oid,
    replies: Seq<Reply>,
)
    requires
        world.wf(),
        options.dry_run,
        world.is_honest(first, start(options, root), replies),
    ensures
        course(first, start(options, root), replies).0 == first,
{
    let run = start(options, root);
    lemma_grounded(world, first, options, root, replies);
    lemma_course(first, run, replies);
    lemma_course_refs(first, run, replies);
    dry_runs_change_nothing(options, root, replies);
    lemma_idle(first, replay(run, replies).0.ledger.initial, replay(run, replies).1);
}

} // verus!
