//! How deep branches are after a whole run.
use vstd::prelude::*;
use crate::canonical::{
    canonicals, duplicates, every_commit_has_a_canonical, groups, ids, shared_of, CommitInfo,
};
use crate::laws::choosing::lemma_shared_known;
use crate::laws::preserving::{grounded, lemma_copied, lemma_grounded, lemma_rest_ok};
use crate::laws::soundness::{is_moving, is_preflight, lemma_temporary_branches};
use crate::laws::world::{
    apply, course, holds, lemma_listed, lemma_perform_add, lemma_perform_lines, lemma_perform_one,
    lemma_perform_push, lemma_tag_name, lemma_temporary_names, perform, Refs, World,
};
use crate::messages::{
    branching, branching_plan, cleaning, finished, fixpoint, moving, moving_plan, moving_tags,
    nothing_to_do, plan_begins, round_begins, too_many_rounds, Pattern,
};
use crate::model::{
    delete_branches, listed, print_branching, print_left, print_plan, restore, start, succ, Effect,
    Goal, Ledger, Options, Pass, Reply, Run, Scan, Stage, Survey, Sweep,
};
use crate::oid::Oid;
use crate::refs::{
    is_head, is_tag, is_tag_stand_in, is_temporary, keep_branch, local_refs, movable, tags_of,
    temporary_branch, temporary_branches, unbranched, walk_names, Ref,
};
use crate::text::{trimmed, Text};
use crate::walk::{candidates, is_moved, others, with_root, Candidate};

verus! {

/// All that the commit reaches is the root, or below or above it.
pub open spec fn is_clear(world: World, commit: Oid) -> bool {
    forall|c: Oid| #[trigger]
        world.reaches(commit, c) ==> world.reaches(world.root, c) || world.reaches(c, world.root)
}

/// All that branches reach is the root, or below or above it.
pub open spec fn is_rooted(world: World, refs: Refs) -> bool {
    forall|name: Text| #[trigger]
        refs.contains_key(name) && is_head(name) ==> is_clear(world, refs[name])
}

/// The commit is the root or above it, and so is all that it reaches and the root does not.
pub open spec fn is_above(world: World, commit: Oid) -> bool {
    world.reaches(commit, world.root) && is_clear(world, commit)
}

/// Each branch that was above the root, but for temporary ones, is so still, and is not deeper.
pub open spec fn is_no_deeper(world: World, first: Refs, refs: Refs) -> bool {
    forall|name: Text| #[trigger]
        first.contains_key(name) && is_head(name) && !is_temporary(name) && world.reaches(
            first[name],
            world.root,
        ) ==> {
            &&& refs.contains_key(name)
            &&& world.reaches(refs[name], world.root)
            &&& world.depth(refs[name]) <= world.depth(first[name])
        }
}

/// The commits are the root or above it.
pub open spec fn all_above(world: World, commits: Seq<Oid>) -> bool {
    forall|i: int| 0 <= i < commits.len() ==> is_above(world, #[trigger] commits[i])
}

/// The commits that were read are the root or above it.
pub open spec fn infos_above(world: World, infos: Seq<CommitInfo>) -> bool {
    forall|i: int| 0 <= i < infos.len() ==> is_above(world, (#[trigger] infos[i]).oid)
}

/// Both commits are the root or above it.
pub open spec fn pair_above(world: World, pair: Candidate) -> bool {
    is_above(world, pair.commit) && is_above(world, pair.canonical)
}

/// The candidates are the root or above it.
pub open spec fn pairs_above(world: World, pairs: Seq<Candidate>) -> bool {
    forall|i: int| 0 <= i < pairs.len() ==> pair_above(world, #[trigger] pairs[i])
}

/// The candidates of a pass are the root or above it.
pub open spec fn scan_above(world: World, scan: Scan) -> bool {
    pair_above(world, scan.current) && pairs_above(world, scan.rest)
}

/// The canonical commits, and those for which they stand, are the root or above it.
pub open spec fn chosen_above(world: World, chosen: Map<Oid, Oid>) -> bool {
    forall|c: Oid| #[trigger]
        chosen.contains_key(c) ==> is_above(world, c) && is_above(world, chosen[c])
}

/// The commits with which a run is busy at its stage are the root or above it.
pub open spec fn stage_above(world: World, stage: Stage) -> bool {
    match stage {
        Stage::Walk { names, .. } => forall|i: int|
            0 <= i < names.len() ==> is_head(#[trigger] names[i]),
        Stage::Info { done, current, rest, .. } => infos_above(world, done) && is_above(
            world,
            current,
        ) && all_above(world, rest),
        Stage::Depth { done, current, rest, .. } => infos_above(world, done) && is_above(
            world,
            current,
        ) && all_above(world, rest),
        Stage::Heads { shared } => all_above(world, shared),
        Stage::Branch { current, rest } => is_above(world, current) && all_above(world, rest),
        Stage::Candidate(scan) => scan_above(world, scan),
        Stage::KeepRef(scan) => scan_above(world, scan),
        Stage::KeepCommit(scan) => scan_above(world, scan),
        Stage::Branches(scan) => scan_above(world, scan),
        Stage::Descends(sweep) => scan_above(world, sweep.scan),
        Stage::Tip(sweep) => scan_above(world, sweep.scan),
        Stage::Line { sweep, .. } => scan_above(world, sweep.scan),
        Stage::Signature { sweep, .. } => scan_above(world, sweep.scan),
        Stage::Copy { sweep, parent, .. } => scan_above(world, sweep.scan) && is_above(
            world,
            parent,
        ),
        _ => true,
    }
}

/// The references are rooted, and no branch is deeper than it was.
spec fn refs_ok(world: World, first: Refs, refs: Refs) -> bool {
    is_rooted(world, refs) && is_no_deeper(world, first, refs)
}

/// What holds of the references and of a run that has found all branches at, below or above the
/// root.
spec fn stands(world: World, first: Refs, refs: Refs, run: Run) -> bool {
    &&& refs_ok(world, first, refs)
    &&& chosen_above(world, run.ledger.canonicals)
    &&& stage_above(world, run.stage)
}

/// What holds of such a run between two stages.
spec fn base_ok(world: World, first: Refs, refs: Refs, ledger: Ledger) -> bool {
    &&& world.wf()
    &&& is_rooted(world, first)
    &&& refs_ok(world, first, refs)
    &&& chosen_above(world, ledger.canonicals)
    &&& ledger.root == world.root
    &&& forall|i: int| 0 <= i < ledger.initial.len() ==> holds(first, #[trigger] ledger.initial[i])
}

proof fn lemma_root_above(world: World)
    requires
        world.wf(),
    ensures
        is_above(world, world.root),
{
    assert(world.reaches(world.root, world.root));
}

/// What a commit reaches is clear if the commit is.
proof fn lemma_clear_below(world: World, commit: Oid, c: Oid)
    requires
        world.wf(),
        is_clear(world, commit),
        world.reaches(commit, c),
    ensures
        is_clear(world, c),
{
    assert forall|d: Oid| #[trigger] world.reaches(c, d) implies world.reaches(world.root, d)
        || world.reaches(d, world.root) by {
        assert(world.reaches(commit, d));
    }
}

proof fn lemma_restore(world: World, first: Refs, refs: Refs, found: Seq<Ref>, message: Text)
    requires
        is_rooted(world, first),
        refs_ok(world, first, refs),
        forall|i: int| 0 <= i < found.len() ==> holds(first, #[trigger] found[i]),
    ensures
        refs_ok(world, first, perform(refs, restore(found, message))),
    decreases found.len(),
{
    if found.len() > 0 {
        let front = found.drop_last();
        assert forall|i: int| 0 <= i < front.len() implies holds(first, #[trigger] front[i]) by {
            assert(front[i] == found[i]);
        }
        lemma_restore(world, first, refs, front, message);
        assert(restore(found, message).drop_last() =~= restore(front, message));
        let last = found[found.len() - 1];
        assert(holds(first, last));
        assert(first.contains_key(last.name));
        let before = perform(refs, restore(front, message));
        let next = perform(refs, restore(found, message));
        assert(next == before.insert(last.name, last.target));
        assert forall|name: Text| #[trigger]
            next.contains_key(name) && is_head(name) implies is_clear(world, next[name]) by {
            if name != last.name {
                assert(before.contains_key(name));
            }
        }
    }
}

proof fn lemma_begin_round(
    world: World,
    first: Refs,
    refs: Refs,
    ledger: Ledger,
    effects: Seq<Effect>,
)
    requires
        base_ok(world, first, perform(refs, effects), ledger),
    ensures
        stands(
            world,
            first,
            perform(refs, ledger.begin_round(effects).1),
            ledger.begin_round(effects).0,
        ),
{
    let round = succ(ledger.round);
    let said = effects.push(Effect::Print(round_begins(round)));
    let warned = said.push(Effect::Warn(too_many_rounds(ledger.options.max_rounds)));
    lemma_perform_push(refs, effects, Effect::Print(round_begins(round)));
    lemma_perform_push(refs, said, Effect::Warn(too_many_rounds(ledger.options.max_rounds)));
    let restored = restore(ledger.initial, "rollback"@);
    lemma_perform_add(refs, warned, restored);
    lemma_restore(world, first, perform(refs, warned), ledger.initial, "rollback"@);
}

proof fn lemma_tag(
    world: World,
    first: Refs,
    refs: Refs,
    ledger: Ledger,
    tags: Seq<Ref>,
    effects: Seq<Effect>,
)
    requires
        base_ok(world, first, perform(refs, effects), ledger),
    ensures
        stands(
            world,
            first,
            perform(refs, ledger.tag(tags, effects).1),
            ledger.tag(tags, effects).0,
        ),
    decreases tags.len(),
{
    lemma_perform_push(refs, effects, Effect::Print(cleaning()));
    if tags.len() > 0 {
        lemma_tag(world, first, refs, ledger, tags.drop_first(), effects);
    }
}

proof fn lemma_tags(world: World, first: Refs, refs: Refs, ledger: Ledger, effects: Seq<Effect>)
    requires
        base_ok(world, first, perform(refs, effects), ledger),
    ensures
        stands(world, first, perform(refs, ledger.tags(effects).1), ledger.tags(effects).0),
{
    let tags = tags_of(ledger.initial);
    if ledger.options.dry_run {
        let begun = effects.push(Effect::Print(plan_begins()));
        lemma_perform_push(refs, effects, Effect::Print(plan_begins()));
        lemma_perform_lines(refs, begun, print_plan(ledger.plan));
        let planned = begun + print_plan(ledger.plan);
        let restored = restore(ledger.initial, "rollback_dry_run"@);
        lemma_perform_add(refs, planned, restored);
        lemma_restore(world, first, perform(refs, planned), ledger.initial, "rollback_dry_run"@);
        lemma_perform_lines(refs, planned + restored, seq![Effect::Print(finished())]);
    } else if ledger.options.move_tags {
        lemma_perform_push(refs, effects, Effect::Print(moving_tags()));
        lemma_tag(world, first, refs, ledger, tags, effects.push(Effect::Print(moving_tags())));
    } else {
        let left = print_left(tags, ledger.duplicates);
        lemma_perform_lines(refs, effects, left);
        lemma_perform_push(refs, effects + left, Effect::Print(cleaning()));
    }
}

proof fn lemma_scan(
    world: World,
    first: Refs,
    refs: Refs,
    ledger: Ledger,
    pass: Pass,
    pairs: Seq<Candidate>,
    effects: Seq<Effect>,
)
    requires
        base_ok(world, first, perform(refs, effects), ledger),
        pairs_above(world, pairs),
    ensures
        stands(
            world,
            first,
            perform(refs, ledger.scan(pass, pairs, effects).1),
            ledger.scan(pass, pairs, effects).0,
        ),
{
    if pairs.len() == 0 && !pass.changed && pass.pattern == Pattern::Shallow {
        if !ledger.changed && !ledger.added {
            let line = Effect::Print(fixpoint(ledger.round));
            lemma_perform_push(refs, effects, line);
            lemma_tags(world, first, refs, ledger, effects.push(line));
        } else {
            lemma_begin_round(world, first, refs, ledger, effects);
        }
    }
}

proof fn lemma_sweep(
    world: World,
    first: Refs,
    refs: Refs,
    ledger: Ledger,
    scan: Scan,
    heads: Seq<Ref>,
    effects: Seq<Effect>,
)
    requires
        base_ok(world, first, perform(refs, effects), ledger),
        scan_above(world, scan),
    ensures
        stands(
            world,
            first,
            perform(refs, ledger.sweep(scan, heads, effects).1),
            ledger.sweep(scan, heads, effects).0,
        ),
{
    if heads.len() == 0 {
        lemma_scan(world, first, refs, ledger, scan.pass, scan.rest, effects);
    }
}

proof fn lemma_relocated(
    world: World,
    first: Refs,
    refs: Refs,
    ledger: Ledger,
    sweep: Sweep,
    effects: Seq<Effect>,
)
    requires
        base_ok(world, first, perform(refs, effects), ledger),
        scan_above(world, sweep.scan),
    ensures
        stands(
            world,
            first,
            perform(refs, ledger.relocated(sweep, effects).1),
            ledger.relocated(sweep, effects).0,
        ),
{
    let scan = Scan { pass: Pass { changed: true, ..sweep.scan.pass }, ..sweep.scan };
    lemma_sweep(
        world,
        first,
        refs,
        Ledger { changed: true, ..ledger },
        scan,
        sweep.rest,
        effects,
    );
}

/// A branch goes to a commit above the root that is not deeper.
proof fn lemma_moved(
    world: World,
    first: Refs,
    refs: Refs,
    ledger: Ledger,
    sweep: Sweep,
    copy: Oid,
)
    requires
        base_ok(world, first, refs, ledger),
        scan_above(world, sweep.scan),
        holds(refs, sweep.head),
        is_above(world, copy),
        world.depth(copy) <= world.depth(sweep.head.target),
    ensures
        ({
            let step = ledger.copy(sweep, copy, Seq::empty());
            stands(world, first, perform(refs, step.1), step.0)
        }),
{
    let moved = Effect::SetRef {
        name: sweep.head.name,
        target: copy,
        message: "rebase_branch_onto"@,
    };
    lemma_perform_one(refs, moved);
    let next = apply(refs, moved);
    assert forall|name: Text| #[trigger]
        next.contains_key(name) && is_head(name) implies is_clear(world, next[name]) by {
        if name != sweep.head.name {
            assert(refs.contains_key(name));
        }
    }
    lemma_relocated(world, first, refs, ledger, sweep, seq![moved]);
}

/// A branch that is made at a commit above the root, where there is none of its name.
proof fn lemma_made(world: World, first: Refs, refs: Refs, name: Text, target: Oid)
    requires
        refs_ok(world, first, refs),
        is_above(world, target),
    ensures
        refs_ok(world, first, apply(refs, Effect::CreateBranch { name, target })),
{
    let next = apply(refs, Effect::CreateBranch { name, target });
    assert forall|n: Text| #[trigger] next.contains_key(n) && is_head(n) implies is_clear(
        world,
        next[n],
    ) by {
        if refs.contains_key(n) {
            assert(next[n] == refs[n]);
        }
    }
    assert forall|n: Text| #[trigger]
        first.contains_key(n) && is_head(n) && !is_temporary(n) && world.reaches(
            first[n],
            world.root,
        ) implies {
        &&& next.contains_key(n)
        &&& world.reaches(next[n], world.root)
        &&& world.depth(next[n]) <= world.depth(first[n])
    } by {
        assert(refs.contains_key(n));
        assert(next[n] == refs[n]);
    }
}

proof fn lemma_branch(
    world: World,
    first: Refs,
    refs: Refs,
    ledger: Ledger,
    missing: Seq<Oid>,
    effects: Seq<Effect>,
)
    requires
        base_ok(world, first, perform(refs, effects), ledger),
        all_above(world, missing),
    ensures
        stands(
            world,
            first,
            perform(refs, ledger.branch(missing, effects).1),
            ledger.branch(missing, effects).0,
        ),
{
    lemma_perform_lines(refs, effects, print_branching(missing));
    if missing.len() > 0 {
        lemma_perform_push(refs, effects, Effect::Print(branching(missing[0])));
        assert(is_above(world, missing[0]));
        assert forall|i: int| 0 <= i < missing.drop_first().len() implies is_above(
            world,
            #[trigger] missing.drop_first()[i],
        ) by {
            assert(missing.drop_first()[i] == missing[i + 1]);
        }
    }
}

proof fn lemma_survey(
    world: World,
    first: Refs,
    refs: Refs,
    ledger: Ledger,
    survey: Survey,
    done: Seq<CommitInfo>,
    commits: Seq<Oid>,
)
    requires
        base_ok(world, first, refs, ledger),
        infos_above(world, done),
        all_above(world, commits),
    ensures
        ({
            let step = ledger.survey(survey, done, commits);
            stands(world, first, perform(refs, step.1), step.0)
        }),
{
    if commits.len() > 0 {
        assert(is_above(world, commits[0]));
        assert forall|i: int| 0 <= i < commits.drop_first().len() implies is_above(
            world,
            #[trigger] commits.drop_first()[i],
        ) by {
            assert(commits.drop_first()[i] == commits[i + 1]);
        }
    } else {
        match survey {
            Survey::Initial => {
                lemma_begin_round(
                    world,
                    first,
                    refs,
                    Ledger { duplicates: duplicates(done), ..ledger },
                    Seq::empty(),
                );
            },
            Survey::Round => {
                assert forall|c: Oid| ids(done).contains(c) implies is_above(world, c) by {
                    let i = choose|i: int| 0 <= i < done.len() && ids(done)[i] == c;
                    assert(done[i].oid == c);
                }
                assert forall|c: Oid| #[trigger] canonicals(done).contains_key(c) implies is_above(
                    world,
                    c,
                ) && is_above(world, canonicals(done)[c]) by {
                    every_commit_has_a_canonical(done, c);
                }
                let shared = shared_of(groups(done));
                assert forall|i: int| 0 <= i < shared.len() implies is_above(
                    world,
                    #[trigger] shared[i],
                ) by {
                    assert(shared.contains(shared[i]));
                    lemma_shared_known(done, shared[i]);
                }
            },
        }
    }
}

proof fn lemma_walked(
    world: World,
    first: Refs,
    refs: Refs,
    ledger: Ledger,
    goal: Goal,
    commits: Seq<Oid>,
)
    requires
        base_ok(world, first, refs, ledger),
        all_above(world, commits),
    ensures
        ({
            let step = ledger.walked(goal, commits);
            stands(world, first, perform(refs, step.1), step.0)
        }),
{
    match goal {
        Goal::Initial => {
            lemma_survey(world, first, refs, ledger, Survey::Initial, Seq::empty(), commits);
        },
        Goal::Round => {
            lemma_perform_one(refs, Effect::Print(nothing_to_do()));
            lemma_tags(world, first, refs, ledger, seq![Effect::Print(nothing_to_do())]);
        },
        Goal::Canonicals => {
            lemma_survey(world, first, refs, ledger, Survey::Round, Seq::empty(), commits);
        },
        Goal::Pass(pass) => {
            let moved = is_moved(ledger.canonicals);
            let rest = others(commits, ledger.root);
            let pairs = candidates(commits, ledger.canonicals, ledger.root);
            assert forall|i: int| 0 <= i < pairs.len() implies pair_above(
                world,
                #[trigger] pairs[i],
            ) by {
                rest.lemma_filter_pred(moved, i);
            }
            lemma_scan(world, first, refs, ledger, pass, pairs, Seq::empty());
        },
    }
}

/// Walks start from branches.
proof fn lemma_walk_heads(found: Seq<Ref>)
    requires
        forall|i: int|
            0 <= i < found.len() ==> is_head((#[trigger] found[i]).name) || is_tag(found[i].name),
    ensures
        forall|i: int| 0 <= i < walk_names(found).len() ==> is_head(#[trigger] walk_names(found)[i]),
{
    let wanted = |r: Ref| !is_tag_stand_in(r.name) && !is_tag(r.name);
    let kept = found.filter(wanted);
    let names = walk_names(found);
    assert(names == kept.map_values(|r: Ref| r.name));
    assert forall|i: int| 0 <= i < names.len() implies is_head(#[trigger] names[i]) by {
        found.lemma_filter_pred(wanted, i);
        assert(kept.contains(kept[i]));
        found.lemma_filter_contains_rev(wanted, kept[i]);
        let k = choose|k: int| 0 <= k < found.len() && found[k] == kept[i];
        assert(is_head(found[k].name) || is_tag(found[k].name));
    }
}

proof fn lemma_survey_step(world: World, first: Refs, refs: Refs, run: Run, reply: Reply)
    requires
        base_ok(world, first, refs, run.ledger),
        stands(world, first, refs, run),
        world.tells(refs, run.request(), reply),
        run.stage is WalkNames || run.stage is Walk || run.stage is Info || run.stage is Depth,
    ensures
        stands(world, first, perform(refs, run.advance(reply).1), run.advance(reply).0),
{
    let ledger = run.ledger;
    match (run.stage, reply) {
        (Stage::WalkNames(goal), Reply::Refs(found)) => {
            lemma_walked(world, first, refs, ledger, goal, Seq::empty());
            if let Ok(records) = found {
                lemma_listed(refs, records);
                let found = local_refs(records)->Ok_0;
                assert forall|i: int| 0 <= i < found.len() implies is_head(
                    (#[trigger] found[i]).name,
                ) || is_tag(found[i].name) by {
                    assert(found.contains(found[i]));
                }
                lemma_walk_heads(found);
            }
        },
        (Stage::Walk { goal, names }, Reply::Commits(Ok(commits))) => {
            let all = with_root(commits, ledger.root);
            lemma_root_above(world);
            assert forall|c: Oid| commits.contains(c) implies is_above(world, c) by {
                let i = choose|i: int|
                    0 <= i < names.len() && refs.contains_key(#[trigger] names[i])
                        && world.reaches(refs[names[i]], c);
                assert(is_head(names[i]));
                assert(is_clear(world, refs[names[i]]));
                lemma_clear_below(world, refs[names[i]], c);
            }
            assert forall|i: int| 0 <= i < all.len() implies is_above(world, #[trigger] all[i]) by {
                if all[i] != world.root {
                    if commits.contains(ledger.root) {
                        assert(commits.contains(all[i]));
                    } else {
                        assert(all[i] == commits[i - 1]);
                        assert(commits.contains(all[i]));
                    }
                }
            }
            lemma_walked(world, first, refs, ledger, goal, all);
        },
        (Stage::Info { survey, done, current, rest }, Reply::TreeAndDate(Ok((tree, date)))) => {
            let info = CommitInfo { tree_id: tree, depth: 0, cdate: date, oid: current };
            let other = CommitInfo { depth: ledger.depths[current], ..info };
            lemma_survey(world, first, refs, ledger, survey, done.push(info), rest);
            lemma_survey(world, first, refs, ledger, survey, done.push(other), rest);
        },
        (Stage::Depth { survey, done, current, rest, tree, date }, Reply::Count(Ok(depth))) => {
            let info = CommitInfo { tree_id: tree, depth, cdate: date, oid: current };
            let next = Ledger { depths: ledger.depths.insert(current, depth), ..ledger };
            lemma_survey(world, first, refs, next, survey, done.push(info), rest);
        },
        _ => {},
    }
}

proof fn lemma_branch_step(world: World, first: Refs, refs: Refs, run: Run, reply: Reply)
    requires
        base_ok(world, first, refs, run.ledger),
        stands(world, first, refs, run),
        run.stage is Heads || run.stage is Branch,
    ensures
        stands(world, first, perform(refs, run.advance(reply).1), run.advance(reply).0),
{
    let ledger = run.ledger;
    match (run.stage, reply) {
        (Stage::Heads { shared }, Reply::Refs(found)) => {
            if let Ok(found) = listed(found) {
                let missing = unbranched(shared, found, ledger.root);
                let wanted = crate::refs::is_unbranched(found, ledger.root);
                crate::canonical::lemma_distinct(shared.filter(wanted));
                assert forall|i: int| 0 <= i < missing.len() implies is_above(
                    world,
                    #[trigger] missing[i],
                ) by {
                    assert(missing.contains(missing[i]));
                    shared.lemma_filter_contains_rev(wanted, missing[i]);
                    let k = choose|k: int| 0 <= k < shared.len() && shared[k] == missing[i];
                    assert(is_above(world, shared[k]));
                }
                lemma_branch(world, first, refs, ledger, missing, Seq::empty());
            }
        },
        (Stage::Branch { current, rest }, Reply::Found(Ok(_))) => {
            let made = Effect::CreateBranch { name: temporary_branch(current), target: current };
            lemma_perform_one(refs, made);
            lemma_made(world, first, refs, temporary_branch(current), current);
            lemma_branch(
                world,
                first,
                refs,
                Ledger { added: true, plan: ledger.plan.push(branching_plan(current)), ..ledger },
                rest,
                seq![made],
            );
        },
        _ => {},
    }
}

proof fn lemma_scan_step(world: World, first: Refs, refs: Refs, run: Run, reply: Reply)
    requires
        base_ok(world, first, refs, run.ledger),
        stands(world, first, refs, run),
        run.stage is Candidate || run.stage is KeepRef || run.stage is KeepCommit
            || run.stage is Branches || run.stage is Descends,
    ensures
        stands(world, first, perform(refs, run.advance(reply).1), run.advance(reply).0),
{
    let ledger = run.ledger;
    match (run.stage, reply) {
        (Stage::Candidate(scan), Reply::Answer(_)) => {
            lemma_scan(world, first, refs, ledger, scan.pass, scan.rest, Seq::empty());
        },
        (Stage::KeepCommit(scan), Reply::Found(_)) => {
            let c = scan.current.commit;
            lemma_perform_one(refs, Effect::CreateBranch { name: keep_branch(c), target: c });
            lemma_made(world, first, refs, keep_branch(c), c);
        },
        (Stage::Branches(scan), Reply::Refs(found)) => {
            if let Ok(found) = listed(found) {
                let heads = movable(found, scan.current.commit);
                lemma_sweep(world, first, refs, ledger, scan, heads, Seq::empty());
            }
        },
        (Stage::Descends(sweep), Reply::Answer(_)) => {
            let pass = sweep.scan.pass;
            let spot = sweep.scan.current;
            let planned = Ledger {
                plan: ledger.plan.push(
                    moving_plan(pass.pattern, sweep.head.name, spot.canonical, spot.commit),
                ),
                ..ledger
            };
            let said = Effect::Print(
                moving(pass.pattern, ledger.round, pass.number, sweep.head.name, spot.canonical),
            );
            lemma_perform_one(refs, said);
            lemma_sweep(world, first, refs, ledger, sweep.scan, sweep.rest, Seq::empty());
            lemma_sweep(world, first, refs, planned, sweep.scan, sweep.rest, seq![said]);
        },
        _ => {},
    }
}

/// A copy on top of a commit above the root is above the root.
proof fn lemma_copy_above(world: World, parent: Oid, copy: Oid)
    requires
        world.wf(),
        is_above(world, parent),
        (world.reach)(copy) == (world.reach)(parent).insert(copy),
    ensures
        is_above(world, copy),
{
    assert(world.reaches(copy, world.root));
    assert forall|c: Oid| #[trigger] world.reaches(copy, c) implies world.reaches(world.root, c)
        || world.reaches(c, world.root) by {
        if c != copy {
            assert(world.reaches(parent, c));
        }
    }
}

proof fn lemma_move_step(world: World, first: Refs, refs: Refs, run: Run, reply: Reply)
    requires
        base_ok(world, first, refs, run.ledger),
        grounded(world, first, refs, run),
        stands(world, first, refs, run),
        world.tells(refs, run.request(), reply),
        is_moving(run.stage),
    ensures
        stands(world, first, perform(refs, run.advance(reply).1), run.advance(reply).0),
{
    let ledger = run.ledger;
    match (run.stage, reply) {
        (Stage::Tip(sweep), Reply::Commit(_)) => {
            lemma_relocated(world, first, refs, ledger, sweep, Seq::empty());
        },
        (Stage::Line { sweep, .. }, Reply::Commits(_)) => {
            lemma_relocated(world, first, refs, ledger, sweep, Seq::empty());
        },
        (Stage::Signature { sweep, commits }, Reply::Found(_)) => {
            lemma_relocated(world, first, refs, ledger, sweep, Seq::empty());
        },
        (Stage::Copy { sweep, parent, current, rest }, Reply::Commit(commit)) => {
            lemma_relocated(world, first, refs, ledger, sweep, Seq::empty());
            if let Ok(copy) = commit {
                let next = Ledger { rewrites: ledger.rewrites.insert(current, copy), ..ledger };
                lemma_copy_above(world, parent, copy);
                lemma_copied(world, parent, copy);
                if rest.len() == 0 {
                    assert(rest =~= Seq::<Oid>::empty());
                    lemma_rest_ok(world, refs, sweep);
                    lemma_moved(world, first, refs, next, sweep, copy);
                }
            }
        },
        _ => {},
    }
}

proof fn lemma_deleted(world: World, first: Refs, refs: Refs, names: Seq<Text>)
    requires
        refs_ok(world, first, refs),
        forall|i: int| 0 <= i < names.len() ==> "gto/"@.is_prefix_of(#[trigger] names[i]),
    ensures
        refs_ok(world, first, perform(refs, delete_branches(names))),
    decreases names.len(),
{
    if names.len() > 0 {
        let front = names.drop_last();
        assert forall|i: int| 0 <= i < front.len() implies "gto/"@.is_prefix_of(
            #[trigger] front[i],
        ) by {
            assert(front[i] == names[i]);
        }
        lemma_deleted(world, first, refs, front);
        assert(delete_branches(names).drop_last() =~= delete_branches(front));
        assert("gto/"@.is_prefix_of(names[names.len() - 1]));
        lemma_temporary_names(names.last());
        let before = perform(refs, delete_branches(front));
        let next = perform(refs, delete_branches(names));
        assert forall|name: Text| #[trigger]
            next.contains_key(name) && is_head(name) implies is_clear(world, next[name]) by {
            assert(before.contains_key(name));
        }
    }
}

proof fn lemma_closing_step(world: World, first: Refs, refs: Refs, run: Run, reply: Reply)
    requires
        base_ok(world, first, refs, run.ledger),
        stands(world, first, refs, run),
        run.stage is Tag || run.stage is Cleanup,
    ensures
        stands(world, first, perform(refs, run.advance(reply).1), run.advance(reply).0),
{
    let ledger = run.ledger;
    match (run.stage, reply) {
        (Stage::Tag { tag, target, rest }, Reply::Found(Ok(_))) => {
            let name = trimmed(tag.name, "refs/tags/"@);
            let moved = Effect::SetTag { name, target };
            lemma_tag_name(name);
            lemma_perform_one(refs, moved);
            let next = apply(refs, moved);
            assert forall|n: Text| #[trigger]
                next.contains_key(n) && is_head(n) implies is_clear(world, next[n]) by {
                assert(refs.contains_key(n));
            }
            lemma_tag(world, first, refs, ledger, rest, seq![moved]);
        },
        (Stage::Cleanup, Reply::Refs(found)) => {
            let names = match found {
                Ok(records) => temporary_branches(records),
                Err(_) => Seq::empty(),
            };
            if let Ok(records) = found {
                lemma_temporary_branches(records);
            }
            lemma_deleted(world, first, refs, names);
            lemma_perform_lines(refs, delete_branches(names), seq![Effect::Print(finished())]);
        },
        _ => {},
    }
}

proof fn lemma_preflight(world: World, first: Refs, run: Run, reply: Reply)
    requires
        stands(world, first, first, run),
        is_preflight(run.stage),
    ensures
        stands(world, first, perform(first, run.advance(reply).1), run.advance(reply).0),
{
    let options = run.ledger.options;
    let root = run.ledger.root;
    lemma_perform_one(first, Effect::Warn(crate::messages::dirty()));
    lemma_perform_one(first, Effect::Warn(crate::messages::invalid_root(options.root_name)));
    lemma_perform_one(first, Effect::Warn(crate::messages::no_refs(options.root_name, root)));
    lemma_perform_one(first, Effect::Print(crate::messages::optimizing(options.root_name, root)));
}

proof fn lemma_step(world: World, first: Refs, refs: Refs, run: Run, reply: Reply)
    requires
        world.wf(),
        is_rooted(world, first),
        grounded(world, first, refs, run),
        stands(world, first, refs, run),
        world.tells(refs, run.request(), reply),
    ensures
        stands(world, first, perform(refs, run.advance(reply).1), run.advance(reply).0),
{
    match run.stage {
        Stage::Worktree => {
            lemma_preflight(world, first, run, reply);
        },
        Stage::Root => {
            lemma_preflight(world, first, run, reply);
        },
        Stage::AllRefs => {
            lemma_preflight(world, first, run, reply);
        },
        Stage::Descent { .. } => {
            lemma_preflight(world, first, run, reply);
        },
        Stage::WalkNames(_) => {
            lemma_survey_step(world, first, refs, run, reply);
        },
        Stage::Walk { .. } => {
            lemma_survey_step(world, first, refs, run, reply);
        },
        Stage::Info { .. } => {
            lemma_survey_step(world, first, refs, run, reply);
        },
        Stage::Depth { .. } => {
            lemma_survey_step(world, first, refs, run, reply);
        },
        Stage::Heads { .. } => {
            lemma_branch_step(world, first, refs, run, reply);
        },
        Stage::Branch { .. } => {
            lemma_branch_step(world, first, refs, run, reply);
        },
        Stage::Candidate(_) => {
            lemma_scan_step(world, first, refs, run, reply);
        },
        Stage::KeepRef(_) => {
            lemma_scan_step(world, first, refs, run, reply);
        },
        Stage::KeepCommit(_) => {
            lemma_scan_step(world, first, refs, run, reply);
        },
        Stage::Branches(_) => {
            lemma_scan_step(world, first, refs, run, reply);
        },
        Stage::Descends(_) => {
            lemma_scan_step(world, first, refs, run, reply);
        },
        Stage::Tip(_) => {
            lemma_move_step(world, first, refs, run, reply);
        },
        Stage::Line { .. } => {
            lemma_move_step(world, first, refs, run, reply);
        },
        Stage::Signature { .. } => {
            lemma_move_step(world, first, refs, run, reply);
        },
        Stage::Copy { .. } => {
            lemma_move_step(world, first, refs, run, reply);
        },
        Stage::Tag { .. } => {
            lemma_closing_step(world, first, refs, run, reply);
        },
        Stage::Cleanup => {
            lemma_closing_step(world, first, refs, run, reply);
        },
        _ => {},
    }
}

proof fn lemma_stands(
    world: World,
    first: Refs,
    options: Options,
    root: Oid,
    replies: Seq<Reply>,
)
    requires
        world.wf(),
        is_rooted(world, first),
        world.is_honest(first, start(options, root), replies),
    ensures
        ({
            let (refs, run) = course(first, start(options, root), replies);
            stands(world, first, refs, run)
        }),
    decreases replies.len(),
{
    if replies.len() > 0 {
        let front = replies.drop_last();
        lemma_stands(world, first, options, root, front);
        lemma_grounded(world, first, options, root, front);
        let (refs, run) = course(first, start(options, root), front);
        lemma_step(world, first, refs, run, replies.last());
    }
}

/// Where all that branches reach is the root, or below or above it, a branch above the root that is
/// not a temporary one stays above the root, and is at no moment of a run deeper than it was when
/// the run began.
pub proof fn branches_do_not_get_deeper(
    world: World,
    first: Refs,
    options: Options,
    root: Oid,
    replies: Seq<Reply>,
    name: Text,
)
    requires
        world.wf(),
        is_rooted(world, first),
        world.is_honest(first, start(options, root), replies),
        first.contains_key(name),
        is_head(name),
        !is_temporary(name),
        world.reaches(first[name], world.root),
    ensures
        ({
            let refs = course(first, start(options, root), replies).0;
            &&& refs.contains_key(name)
            &&& world.reaches(refs[name], world.root)
            &&& world.depth(refs[name]) <= world.depth(first[name])
        }),
{
    lemma_stands(world, first, options, root, replies);
}

} // verus!
