//! What a run does to a repository that a run has been through.
use vstd::prelude::*;
use crate::canonical::{duplicates, CommitInfo};
use crate::laws::converging::{
    is_alike, lemma_alike, lemma_delete, lemma_tracks, queue, success_settles, tracks,
};
use crate::laws::naming::{clean_up_finds_temporary_branches, own_branches_are_recognized};
use crate::laws::preserving::{grounded, lemma_grounded};
use crate::laws::replay::replay;
use crate::laws::soundness::{
    is_moving, is_preflight, lemma_temporary_branches, runs_are_sound, sound,
};
use crate::laws::world::{
    apply, course, holds, is_walked, lemma_course, lemma_heads_are_no_tags, lemma_own_refs,
    lemma_perform_add, lemma_perform_lines, lemma_perform_one, lemma_perform_push, lemma_tag_name,
    lemma_temporary_names, lists, perform, shows, Refs, World,
};
use crate::messages::{
    branching, branching_plan, cleaning, finished, fixpoint, moving_tags, nothing_to_do,
    round_begins, too_many_rounds, Pattern,
};
use crate::model::{
    delete_branches, listed, print_left, restore, start, succ, Effect, Goal, Ledger, Options,
    Outcome, Pass, Reply, Request, Run, Scan, Stage, Survey,
};
use crate::oid::Oid;
use crate::refs::{
    is_head, is_movable, is_tag, is_temporary, keep_ref, movable, tags_of, temporary_branch,
    temporary_branches, temporary_ref, unbranched, Failure, Record, Ref,
};
use crate::text::{trimmed, Text};
use crate::walk::{candidates, with_root, Candidate};

verus! {

/// The reference is one that a run leaves alone in a repository that a run has been through.
pub open spec fn is_fixed(options: Options, name: Text) -> bool {
    !is_temporary(name) && !(options.move_tags && is_tag(name))
}

/// The references are the same but for temporary branches, and for tags where these move.
pub open spec fn is_same(options: Options, first: Refs, refs: Refs) -> bool {
    forall|name: Text|
        is_fixed(options, name) ==> (#[trigger] refs.contains_key(name) <==> first.contains_key(
            name,
        )) && (first.contains_key(name) ==> refs[name] == first[name])
}

/// Temporary branches stand at commits of the walk.
pub open spec fn temporaries_ok(world: World, first: Refs, refs: Refs) -> bool {
    forall|name: Text| #[trigger]
        refs.contains_key(name) && is_temporary(name) ==> world.is_in_walk(first, refs[name])
}

/// There are no temporary branches.
pub open spec fn is_clean(refs: Refs) -> bool {
    forall|name: Text| #[trigger] refs.contains_key(name) ==> !is_temporary(name)
}

/// What holds of a run that has found the references `first`, in which all is settled: the
/// references are the same as then, and the run neither moves a branch nor has to keep a duplicate.
pub open spec fn rests(world: World, first: Refs, refs: Refs, run: Run) -> bool {
    &&& is_same(run.ledger.options, first, refs)
    &&& temporaries_ok(world, first, refs)
    &&& !run.ledger.changed
    &&& !is_moving(run.stage)
    &&& run.stage !is KeepCommit
}

/// The effect is a line; or it makes or deletes a temporary branch; or it puts a reference back to
/// where it was found; or it moves a tag, where tags are to move.
pub open spec fn is_mild(options: Options, first: Refs, effect: Effect) -> bool {
    match effect {
        Effect::CreateBranch { name, target } => name == temporary_branch(target),
        Effect::SetRef { name, target, .. } => holds(first, Ref { name, target }),
        Effect::SetTag { .. } => options.move_tags,
        Effect::DeleteBranch { name } => "gto/"@.is_prefix_of(name),
        _ => true,
    }
}

/// The effects are such.
pub open spec fn all_mild(options: Options, first: Refs, effects: Seq<Effect>) -> bool {
    forall|i: int| 0 <= i < effects.len() ==> is_mild(options, first, #[trigger] effects[i])
}

proof fn lemma_mild_add(options: Options, first: Refs, a: Seq<Effect>, b: Seq<Effect>)
    requires
        all_mild(options, first, a),
        all_mild(options, first, b),
    ensures
        all_mild(options, first, a + b),
{
}

/// What holds of such a run between two stages.
spec fn base_ok(world: World, first: Refs, refs: Refs, ledger: Ledger) -> bool {
    &&& !ledger.options.dry_run
    &&& is_same(ledger.options, first, refs)
    &&& temporaries_ok(world, first, refs)
    &&& !ledger.changed
    &&& forall|i: int| 0 <= i < ledger.initial.len() ==> holds(first, #[trigger] ledger.initial[i])
}

/// Such a repository has the walks of the first.
proof fn lemma_same_walks(world: World, options: Options, first: Refs, refs: Refs)
    requires
        world.wf(),
        is_clean(first),
        is_same(options, first, refs),
        temporaries_ok(world, first, refs),
    ensures
        is_alike(world, first, refs),
{
    assert forall|c: Oid| #[trigger]
        world.is_in_walk(refs, c) <==> world.is_in_walk(first, c) by {
        if world.is_in_walk(first, c) {
            let n = choose|n: Text| #[trigger]
                first.contains_key(n) && is_walked(n) && (is_head(n) || is_tag(n)) && world.reaches(
                    first[n],
                    c,
                );
            assert(is_fixed(options, n));
            assert(refs.contains_key(n) && refs[n] == first[n]);
        }
        if world.is_in_walk(refs, c) {
            let n = choose|n: Text| #[trigger]
                refs.contains_key(n) && is_walked(n) && (is_head(n) || is_tag(n)) && world.reaches(
                    refs[n],
                    c,
                );
            if is_temporary(n) {
                let m = choose|m: Text| #[trigger]
                    first.contains_key(m) && is_walked(m) && (is_head(m) || is_tag(m))
                        && world.reaches(first[m], refs[n]);
                assert(world.reaches(first[m], c));
                assert(first.contains_key(m));
            } else {
                assert(is_fixed(options, n));
                assert(first.contains_key(n) && refs[n] == first[n]);
            }
        }
    }
    assert forall|name: Text| is_movable(name) implies (#[trigger] refs.contains_key(name)
        <==> first.contains_key(name)) && (first.contains_key(name) ==> refs[name]
        == first[name]) by {
        lemma_heads_are_no_tags(name);
        assert(is_fixed(options, name));
    }
    assert forall|c: Oid| first.contains_key(#[trigger] keep_ref(c)) implies refs.contains_key(
        keep_ref(c),
    ) by {
        own_branches_are_recognized(c);
        lemma_own_refs(c);
        assert(is_fixed(options, keep_ref(c)));
    }
    lemma_alike(world, first, refs);
}

/// References that are put back to where they were found are the same.
proof fn lemma_restore(
    world: World,
    options: Options,
    first: Refs,
    refs: Refs,
    found: Seq<Ref>,
    message: Text,
)
    requires
        is_clean(first),
        is_same(options, first, refs),
        temporaries_ok(world, first, refs),
        forall|i: int| 0 <= i < found.len() ==> holds(first, #[trigger] found[i]),
    ensures
        is_same(options, first, perform(refs, restore(found, message))),
        temporaries_ok(world, first, perform(refs, restore(found, message))),
    decreases found.len(),
{
    if found.len() > 0 {
        let front = found.drop_last();
        assert forall|i: int| 0 <= i < front.len() implies holds(first, #[trigger] front[i]) by {
            assert(front[i] == found[i]);
        }
        lemma_restore(world, options, first, refs, front, message);
        assert(restore(found, message).drop_last() =~= restore(front, message));
        let r = found[found.len() - 1];
        assert(holds(first, r));
        assert(first.contains_key(r.name));
        let before = perform(refs, restore(front, message));
        let next = perform(refs, restore(found, message));
        assert(next == before.insert(r.name, r.target));
        assert forall|name: Text| #[trigger]
            next.contains_key(name) && is_temporary(name) implies world.is_in_walk(
            first,
            next[name],
        ) by {
            assert(before.contains_key(name));
        }
    }
}

proof fn lemma_begin_round(
    world: World,
    first: Refs,
    refs: Refs,
    ledger: Ledger,
    effects: Seq<Effect>,
)
    requires
        is_clean(first),
        base_ok(world, first, perform(refs, effects), ledger),
        all_mild(ledger.options, first, effects),
    ensures
        all_mild(ledger.options, first, ledger.begin_round(effects).1),
        rests(
            world,
            first,
            perform(refs, ledger.begin_round(effects).1),
            ledger.begin_round(effects).0,
        ),
{
    let round = succ(ledger.round);
    let said = effects.push(Effect::Print(round_begins(round)));
    let warned = said.push(Effect::Warn(too_many_rounds(ledger.options.max_rounds)));
    lemma_perform_push(refs, effects, Effect::Print(round_begins(round)));
    lemma_perform_push(refs, said, Effect::Warn(too_many_rounds(ledger.options.max_rounds)));
    let restored = restore(ledger.initial, "rollback"@);
    lemma_perform_add(refs, warned, restored);
    assert forall|i: int| 0 <= i < restored.len() implies is_mild(
        ledger.options,
        first,
        #[trigger] restored[i],
    ) by {
        assert(holds(first, ledger.initial[i]));
    }
    lemma_mild_add(ledger.options, first, warned, restored);
    lemma_restore(
        world,
        ledger.options,
        first,
        perform(refs, warned),
        ledger.initial,
        "rollback"@,
    );
}

proof fn lemma_tag(
    world: World,
    first: Refs,
    refs: Refs,
    ledger: Ledger,
    tags: Seq<Ref>,
    effects: Seq<Effect>,
)
    requires
        base_ok(world, first, perform(refs, effects), ledger),
        all_mild(ledger.options, first, effects),
    ensures
        all_mild(ledger.options, first, ledger.tag(tags, effects).1),
        rests(
            world,
            first,
            perform(refs, ledger.tag(tags, effects).1),
            ledger.tag(tags, effects).0,
        ),
    decreases tags.len(),
{
    lemma_perform_push(refs, effects, Effect::Print(cleaning()));
    if tags.len() > 0 {
        lemma_tag(world, first, refs, ledger, tags.drop_first(), effects);
    }
}

proof fn lemma_tags(world: World, first: Refs, refs: Refs, ledger: Ledger, effects: Seq<Effect>)
    requires
        base_ok(world, first, perform(refs, effects), ledger),
        all_mild(ledger.options, first, effects),
    ensures
        all_mild(ledger.options, first, ledger.tags(effects).1),
        rests(world, first, perform(refs, ledger.tags(effects).1), ledger.tags(effects).0),
{
    let tags = tags_of(ledger.initial);
    if ledger.options.move_tags {
        lemma_perform_push(refs, effects, Effect::Print(moving_tags()));
        lemma_tag(world, first, refs, ledger, tags, effects.push(Effect::Print(moving_tags())));
    } else {
        let left = print_left(tags, ledger.duplicates);
        lemma_perform_lines(refs, effects, left);
        lemma_mild_add(ledger.options, first, effects, left);
        lemma_perform_push(refs, effects + left, Effect::Print(cleaning()));
    }
}

proof fn lemma_scan(
    world: World,
    first: Refs,
    refs: Refs,
    ledger: Ledger,
    pass: Pass,
    pairs: Seq<Candidate>,
    effects: Seq<Effect>,
)
    requires
        is_clean(first),
        base_ok(world, first, perform(refs, effects), ledger),
        all_mild(ledger.options, first, effects),
    ensures
        all_mild(ledger.options, first, ledger.scan(pass, pairs, effects).1),
        rests(
            world,
            first,
            perform(refs, ledger.scan(pass, pairs, effects).1),
            ledger.scan(pass, pairs, effects).0,
        ),
{
    if pairs.len() == 0 && !pass.changed && pass.pattern == Pattern::Shallow {
        if !ledger.added {
            let line = Effect::Print(fixpoint(ledger.round));
            lemma_perform_push(refs, effects, line);
            lemma_tags(world, first, refs, ledger, effects.push(line));
        } else {
            lemma_begin_round(world, first, refs, ledger, effects);
        }
    }
}

proof fn lemma_sweep(
    world: World,
    first: Refs,
    refs: Refs,
    ledger: Ledger,
    scan: Scan,
    heads: Seq<Ref>,
)
    requires
        is_clean(first),
        base_ok(world, first, refs, ledger),
    ensures
        ({
            let step = ledger.sweep(scan, heads, Seq::empty());
            &&& rests(world, first, perform(refs, step.1), step.0)
            &&& all_mild(ledger.options, first, step.1)
        }),
{
    if heads.len() == 0 {
        lemma_scan(world, first, refs, ledger, scan.pass, scan.rest, Seq::empty());
    }
}

proof fn lemma_branch(
    world: World,
    first: Refs,
    refs: Refs,
    ledger: Ledger,
    missing: Seq<Oid>,
    effects: Seq<Effect>,
)
    requires
        base_ok(world, first, perform(refs, effects), ledger),
        all_mild(ledger.options, first, effects),
    ensures
        all_mild(ledger.options, first, ledger.branch(missing, effects).1),
        rests(
            world,
            first,
            perform(refs, ledger.branch(missing, effects).1),
            ledger.branch(missing, effects).0,
        ),
{
    if missing.len() > 0 {
        lemma_perform_push(refs, effects, Effect::Print(branching(missing[0])));
    }
}

proof fn lemma_survey(
    world: World,
    first: Refs,
    refs: Refs,
    ledger: Ledger,
    survey: Survey,
    done: Seq<CommitInfo>,
    commits: Seq<Oid>,
)
    requires
        is_clean(first),
        base_ok(world, first, refs, ledger),
    ensures
        ({
            let step = ledger.survey(survey, done, commits);
            &&& rests(world, first, perform(refs, step.1), step.0)
            &&& all_mild(ledger.options, first, step.1)
        }),
{
    if commits.len() == 0 && survey is Initial {
        lemma_begin_round(
            world,
            first,
            refs,
            Ledger { duplicates: duplicates(done), ..ledger },
            Seq::empty(),
        );
    }
}

proof fn lemma_walked(
    world: World,
    first: Refs,
    refs: Refs,
    ledger: Ledger,
    goal: Goal,
    commits: Seq<Oid>,
)
    requires
        is_clean(first),
        base_ok(world, first, refs, ledger),
    ensures
        ({
            let step = ledger.walked(goal, commits);
            &&& rests(world, first, perform(refs, step.1), step.0)
            &&& all_mild(ledger.options, first, step.1)
        }),
{
    match goal {
        Goal::Initial => {
            lemma_survey(world, first, refs, ledger, Survey::Initial, Seq::empty(), commits);
        },
        Goal::Round => {
            lemma_perform_one(refs, Effect::Print(nothing_to_do()));
            lemma_tags(world, first, refs, ledger, seq![Effect::Print(nothing_to_do())]);
        },
        Goal::Canonicals => {
            lemma_survey(world, first, refs, ledger, Survey::Round, Seq::empty(), commits);
        },
        Goal::Pass(pass) => {
            lemma_scan(
                world,
                first,
                refs,
                ledger,
                pass,
                candidates(commits, ledger.canonicals, ledger.root),
                Seq::empty(),
            );
        },
    }
}

proof fn lemma_preflight(world: World, first: Refs, run: Run, reply: Reply)
    requires
        rests(world, first, first, run),
        is_preflight(run.stage),
    ensures
        rests(world, first, perform(first, run.advance(reply).1), run.advance(reply).0),
        all_mild(run.ledger.options, first, run.advance(reply).1),
{
    let options = run.ledger.options;
    let root = run.ledger.root;
    lemma_perform_one(first, Effect::Warn(crate::messages::dirty()));
    lemma_perform_one(first, Effect::Warn(crate::messages::invalid_root(options.root_name)));
    lemma_perform_one(first, Effect::Warn(crate::messages::no_refs(options.root_name, root)));
    lemma_perform_one(first, Effect::Print(crate::messages::optimizing(options.root_name, root)));
}

proof fn lemma_deleted(
    world: World,
    options: Options,
    first: Refs,
    refs: Refs,
    names: Seq<Text>,
)
    requires
        is_same(options, first, refs),
        temporaries_ok(world, first, refs),
        forall|i: int| 0 <= i < names.len() ==> "gto/"@.is_prefix_of(#[trigger] names[i]),
    ensures
        is_same(options, first, perform(refs, delete_branches(names))),
        temporaries_ok(world, first, perform(refs, delete_branches(names))),
{
    lemma_delete(refs, names);
    let next = perform(refs, delete_branches(names));
    assert forall|name: Text| is_fixed(options, name) implies (#[trigger] next.contains_key(name)
        <==> first.contains_key(name)) && (first.contains_key(name) ==> next[name]
        == first[name]) by {
        assert(refs.contains_key(name) <==> first.contains_key(name));
    }
    assert forall|name: Text| #[trigger]
        next.contains_key(name) && is_temporary(name) implies world.is_in_walk(
        first,
        next[name],
    ) by {
        assert(refs.contains_key(name));
    }
}

proof fn lemma_scan_step(world: World, first: Refs, refs: Refs, run: Run, reply: Reply)
    requires
        world.wf(),
        world.is_settled(first),
        is_clean(first),
        !run.ledger.options.dry_run,
        grounded(world, first, refs, run),
        tracks(world, refs, run),
        sound(run),
        rests(world, first, refs, run),
        world.tells(refs, run.request(), reply),
        run.stage is Candidate || run.stage is KeepRef || run.stage is Branches
            || run.stage is Descends,
    ensures
        rests(world, first, perform(refs, run.advance(reply).1), run.advance(reply).0),
        all_mild(run.ledger.options, first, run.advance(reply).1),
{
    let ledger = run.ledger;
    lemma_same_walks(world, ledger.options, first, refs);
    match (run.stage, reply) {
        (Stage::Candidate(scan), Reply::Answer(_)) => {
            lemma_scan(world, first, refs, ledger, scan.pass, scan.rest, Seq::empty());
        },
        (Stage::KeepRef(scan), Reply::Found(_)) => {
            let c = scan.current.commit;
            assert(queue(scan)[0] == scan.current);
            assert(world.is_duplicate(refs, c));
            assert(world.is_in_walk(refs, c) <==> world.is_in_walk(first, c));
            assert(world.is_best(refs, c) <==> world.is_best(first, c));
            assert(world.is_duplicate(first, c));
        },
        (Stage::Branches(scan), Reply::Refs(found)) => {
            if let Ok(found) = listed(found) {
                lemma_sweep(
                    world,
                    first,
                    refs,
                    ledger,
                    scan,
                    movable(found, scan.current.commit),
                );
            }
        },
        (Stage::Descends(sweep), Reply::Answer(_)) => {
            let c = sweep.scan.current.commit;
            assert(queue(sweep.scan)[0] == sweep.scan.current);
            assert(world.is_duplicate(refs, c));
            assert(world.is_in_walk(refs, c) <==> world.is_in_walk(first, c));
            assert(world.is_best(refs, c) <==> world.is_best(first, c));
            assert(world.is_duplicate(first, c));
            assert(world.is_bare(refs, c) <==> world.is_bare(first, c));
            let all = seq![sweep.head] + sweep.rest;
            assert(all[0] == sweep.head);
            assert(holds(refs, all[0]));
            assert(refs.contains_key(sweep.head.name));
            assert(!world.descends(sweep.head.target, c));
            lemma_sweep(world, first, refs, ledger, sweep.scan, sweep.rest);
        },
        _ => {},
    }
}

proof fn lemma_branch_step(world: World, first: Refs, refs: Refs, run: Run, reply: Reply)
    requires
        world.wf(),
        is_clean(first),
        !run.ledger.options.dry_run,
        grounded(world, first, refs, run),
        tracks(world, refs, run),
        rests(world, first, refs, run),
        run.stage is Branch,
    ensures
        rests(world, first, perform(refs, run.advance(reply).1), run.advance(reply).0),
        all_mild(run.ledger.options, first, run.advance(reply).1),
{
    let ledger = run.ledger;
    lemma_same_walks(world, ledger.options, first, refs);
    if let (Stage::Branch { current, rest }, Reply::Found(Ok(_))) = (run.stage, reply) {
        let made = Effect::CreateBranch { name: temporary_branch(current), target: current };
        lemma_perform_one(refs, made);
        lemma_own_refs(current);
        own_branches_are_recognized(current);
        assert(world.is_in_walk(refs, current));
        assert(world.is_in_walk(first, current));
        let next = apply(refs, made);
        assert forall|name: Text| is_fixed(ledger.options, name) implies (
        #[trigger] next.contains_key(name) <==> first.contains_key(name)) && (first.contains_key(
            name,
        ) ==> next[name] == first[name]) by {
            assert(name != temporary_ref(current));
            assert(refs.contains_key(name) <==> first.contains_key(name));
        }
        assert forall|name: Text| #[trigger]
            next.contains_key(name) && is_temporary(name) implies world.is_in_walk(
            first,
            next[name],
        ) by {
            if refs.contains_key(name) {
                assert(next[name] == refs[name]);
            }
        }
        lemma_branch(
            world,
            first,
            refs,
            Ledger { added: true, plan: ledger.plan.push(branching_plan(current)), ..ledger },
            rest,
            seq![made],
        );
    }
}

proof fn lemma_closing_step(world: World, first: Refs, refs: Refs, run: Run, reply: Reply)
    requires
        is_clean(first),
        !run.ledger.options.dry_run,
        grounded(world, first, refs, run),
        sound(run),
        rests(world, first, refs, run),
        run.stage is Tag || run.stage is Cleanup,
    ensures
        rests(world, first, perform(refs, run.advance(reply).1), run.advance(reply).0),
        all_mild(run.ledger.options, first, run.advance(reply).1),
{
    let ledger = run.ledger;
    match (run.stage, reply) {
        (Stage::Tag { tag, target, rest }, Reply::Found(Ok(_))) => {
            let name = trimmed(tag.name, "refs/tags/"@);
            let moved = Effect::SetTag { name, target };
            lemma_perform_one(refs, moved);
            lemma_tag_name(name);
            lemma_temporary_names("refs/tags/"@ + name);
            let next = apply(refs, moved);
            assert forall|n: Text| #[trigger]
                next.contains_key(n) && is_temporary(n) implies world.is_in_walk(
                first,
                next[n],
            ) by {
                assert(refs.contains_key(n) && refs[n] == next[n]);
            }
            lemma_tag(world, first, refs, ledger, rest, seq![moved]);
        },
        (Stage::Cleanup, Reply::Refs(found)) => {
            let names = match found {
                Ok(records) => temporary_branches(records),
                Err(_) => Seq::empty(),
            };
            if let Ok(records) = found {
                lemma_temporary_branches(records);
            }
            lemma_deleted(world, ledger.options, first, refs, names);
            let deleted = delete_branches(names);
            assert forall|i: int| 0 <= i < deleted.len() implies is_mild(
                ledger.options,
                first,
                #[trigger] deleted[i],
            ) by {
                assert("gto/"@.is_prefix_of(names[i]));
            }
            lemma_mild_add(
                ledger.options,
                first,
                deleted,
                seq![Effect::Print(finished())],
            );
            lemma_perform_lines(refs, delete_branches(names), seq![Effect::Print(finished())]);
        },
        _ => {},
    }
}

proof fn lemma_survey_step(world: World, first: Refs, refs: Refs, run: Run, reply: Reply)
    requires
        is_clean(first),
        !run.ledger.options.dry_run,
        grounded(world, first, refs, run),
        rests(world, first, refs, run),
        run.stage is WalkNames || run.stage is Walk || run.stage is Info || run.stage is Depth,
    ensures
        rests(world, first, perform(refs, run.advance(reply).1), run.advance(reply).0),
        all_mild(run.ledger.options, first, run.advance(reply).1),
{
    let ledger = run.ledger;
    match (run.stage, reply) {
        (Stage::WalkNames(goal), Reply::Refs(_)) => {
            lemma_walked(world, first, refs, ledger, goal, Seq::empty());
        },
        (Stage::Walk { goal, .. }, Reply::Commits(Ok(commits))) => {
            lemma_walked(world, first, refs, ledger, goal, with_root(commits, ledger.root));
        },
        (Stage::Info { survey, done, current, rest }, Reply::TreeAndDate(Ok((tree, date)))) => {
            let info = CommitInfo { tree_id: tree, depth: 0, cdate: date, oid: current };
            let other = CommitInfo { depth: ledger.depths[current], ..info };
            lemma_survey(world, first, refs, ledger, survey, done.push(info), rest);
            lemma_survey(world, first, refs, ledger, survey, done.push(other), rest);
        },
        (Stage::Depth { survey, done, current, rest, tree, date }, Reply::Count(Ok(depth))) => {
            let info = CommitInfo { tree_id: tree, depth, cdate: date, oid: current };
            let next = Ledger { depths: ledger.depths.insert(current, depth), ..ledger };
            lemma_survey(world, first, refs, next, survey, done.push(info), rest);
        },
        _ => {},
    }
}

proof fn lemma_rests_step(world: World, first: Refs, refs: Refs, run: Run, reply: Reply)
    requires
        world.wf(),
        world.is_settled(first),
        is_clean(first),
        !run.ledger.options.dry_run,
        grounded(world, first, refs, run),
        tracks(world, refs, run),
        sound(run),
        rests(world, first, refs, run),
        world.tells(refs, run.request(), reply),
    ensures
        rests(world, first, perform(refs, run.advance(reply).1), run.advance(reply).0),
        all_mild(run.ledger.options, first, run.advance(reply).1),
{
    match run.stage {
        Stage::Worktree => {
            lemma_preflight(world, first, run, reply);
        },
        Stage::Root => {
            lemma_preflight(world, first, run, reply);
        },
        Stage::AllRefs => {
            lemma_preflight(world, first, run, reply);
        },
        Stage::Descent { .. } => {
            lemma_preflight(world, first, run, reply);
        },
        Stage::WalkNames(_) => {
            lemma_survey_step(world, first, refs, run, reply);
        },
        Stage::Walk { .. } => {
            lemma_survey_step(world, first, refs, run, reply);
        },
        Stage::Info { .. } => {
            lemma_survey_step(world, first, refs, run, reply);
        },
        Stage::Depth { .. } => {
            lemma_survey_step(world, first, refs, run, reply);
        },
        Stage::Heads { shared } => {
            if let Reply::Refs(found) = reply {
                if let Ok(found) = listed(found) {
                    lemma_branch(
                        world,
                        first,
                        refs,
                        run.ledger,
                        unbranched(shared, found, run.ledger.root),
                        Seq::empty(),
                    );
                }
            }
        },
        Stage::Branch { .. } => {
            lemma_branch_step(world, first, refs, run, reply);
        },
        Stage::Candidate(_) => {
            lemma_scan_step(world, first, refs, run, reply);
        },
        Stage::KeepRef(_) => {
            lemma_scan_step(world, first, refs, run, reply);
        },
        Stage::Branches(_) => {
            lemma_scan_step(world, first, refs, run, reply);
        },
        Stage::Descends(_) => {
            lemma_scan_step(world, first, refs, run, reply);
        },
        Stage::Tag { .. } => {
            lemma_closing_step(world, first, refs, run, reply);
        },
        Stage::Cleanup => {
            lemma_closing_step(world, first, refs, run, reply);
        },
        _ => {},
    }
}

proof fn lemma_rests(
    world: World,
    first: Refs,
    options: Options,
    root: Oid,
    replies: Seq<Reply>,
)
    requires
        world.wf(),
        world.is_settled(first),
        is_clean(first),
        !options.dry_run,
        world.is_honest(first, start(options, root), replies),
    ensures
        ({
            let (refs, run) = course(first, start(options, root), replies);
            &&& rests(world, first, refs, run)
            &&& run.ledger.options == options
            &&& all_mild(options, first, replay(start(options, root), replies).1)
        }),
    decreases replies.len(),
{
    lemma_course(first, start(options, root), replies);
    runs_are_sound(options, root, replies);
    if replies.len() > 0 {
        let front = replies.drop_last();
        lemma_rests(world, first, options, root, front);
        lemma_grounded(world, first, options, root, front);
        lemma_tracks(world, first, options, root, front);
        lemma_course(first, start(options, root), front);
        runs_are_sound(options, root, front);
        let (refs, run) = course(first, start(options, root), front);
        lemma_rests_step(world, first, refs, run, replies.last());
        lemma_mild_add(
            options,
            first,
            replay(start(options, root), front).1,
            run.advance(replies.last()).1,
        );
    }
}

/// A clean-up that gets a listing leaves no temporary branch, and all other references as they are.
pub proof fn clean_up_is_thorough(
    refs: Refs,
    run: Run,
    records: Seq<Result<Record, Failure>>,
)
    requires
        run.stage is Cleanup,
        lists(refs, records),
    ensures
        ({
            let next = perform(refs, run.advance(Reply::Refs(Ok(records))).1);
            &&& is_clean(next)
            &&& forall|name: Text|
                !is_temporary(name) ==> (#[trigger] next.contains_key(name) <==> refs.contains_key(
                    name,
                )) && (refs.contains_key(name) ==> next[name] == refs[name])
        }),
{
    let names = temporary_branches(records);
    let next = perform(refs, delete_branches(names));
    lemma_temporary_branches(records);
    lemma_delete(refs, names);
    lemma_perform_lines(refs, delete_branches(names), seq![Effect::Print(finished())]);
    assert forall|name: Text| #[trigger] next.contains_key(name) implies !is_temporary(name) by {
        if is_temporary(name) {
            lemma_temporary_names(name);
            let r = Ref { name, target: refs[name] };
            assert(refs.contains_key(name));
            assert(holds(refs, r));
            let i = choose|i: int|
                #![trigger records[i]]
                0 <= i < records.len() && shows(records[i]->Ok_0, name, refs[name]);
            assert(records[i] is Ok);
            clean_up_finds_temporary_branches(records, i, name);
        }
    }
}

/// References that are the same but for temporary branches, of which there are none, are the same.
proof fn lemma_same_refs(options: Options, first: Refs, refs: Refs)
    requires
        is_same(options, first, refs),
        !options.move_tags,
        is_clean(first),
        is_clean(refs),
    ensures
        refs == first,
{
    assert forall|name: Text| refs.contains_key(name) <==> first.contains_key(name) by {
        if !is_temporary(name) {
            assert(is_fixed(options, name));
        }
    }
    assert forall|name: Text| refs.contains_key(name) implies refs[name] == first[name] by {
        assert(is_fixed(options, name));
    }
    assert(refs =~= first);
}

/// A second run with the same options and the same root, on the repository that a successful run
/// has left without temporary branches, writes no commit and moves no branch. It prints, makes and
/// deletes temporary branches, puts references back to where they are, and moves tags where these
/// are to move. At every moment all references are as the first run has left them, but for
/// temporary branches, and for tags where these are to move. Where they are not, the references are
/// the very same again once there are no temporary branches, and that is so after the clean-up with
/// which it ends, if it gets a listing.
pub proof fn a_second_run_changes_nothing(
    world: World,
    first: Refs,
    options: Options,
    root: Oid,
    replies: Seq<Reply>,
    next_root: Oid,
    next_replies: Seq<Reply>,
)
    requires
        world.wf(),
        !options.dry_run,
        world.is_honest(first, start(options, root), replies),
        course(first, start(options, root), replies).1.request() == Request::Finished(
            Outcome::Success,
        ),
        is_clean(course(first, start(options, root), replies).0),
        world.is_honest(
            course(first, start(options, root), replies).0,
            start(options, next_root),
            next_replies,
        ),
    ensures
        ({
            let left = course(first, start(options, root), replies).0;
            let (refs, run) = course(left, start(options, next_root), next_replies);
            &&& run.request() !is CopyCommit
            &&& !run.ledger.changed
            &&& all_mild(options, left, replay(start(options, next_root), next_replies).1)
            &&& is_same(options, left, refs)
            &&& is_clean(refs) && !options.move_tags ==> refs == left
            &&& forall|records: Seq<Result<Record, Failure>>|
                run.stage is Cleanup && !options.move_tags && #[trigger] lists(refs, records)
                    ==> perform(refs, run.advance(Reply::Refs(Ok(records))).1) == left
        }),
{
    let left = course(first, start(options, root), replies).0;
    success_settles(world, first, options, root, replies);
    lemma_rests(world, left, options, next_root, next_replies);
    let (refs, run) = course(left, start(options, next_root), next_replies);
    if is_clean(refs) && !options.move_tags {
        lemma_same_refs(options, left, refs);
    }
    assert forall|records: Seq<Result<Record, Failure>>|
        run.stage is Cleanup && !options.move_tags && #[trigger] lists(
            refs,
            records,
        ) implies perform(refs, run.advance(Reply::Refs(Ok(records))).1) == left by {
        clean_up_is_thorough(refs, run, records);
        let next = perform(refs, run.advance(Reply::Refs(Ok(records))).1);
        assert forall|name: Text| is_fixed(options, name) implies (
        #[trigger] next.contains_key(name) <==> left.contains_key(name)) && (left.contains_key(
            name,
        ) ==> next[name] == left[name]) by {
            assert(refs.contains_key(name) <==> left.contains_key(name));
            assert(next.contains_key(name) <==> refs.contains_key(name));
            assert(refs.contains_key(name) ==> next[name] == refs[name]);
            assert(left.contains_key(name) ==> refs[name] == left[name]);
        }
        lemma_same_refs(options, left, next);
    }
}

} // verus!
