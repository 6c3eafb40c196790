//! What becomes of every tag.
use vstd::prelude::*;
use crate::laws::finding::{
    duplicates_were_so, lemma_notes, noted_duplicates, references_above_the_root_are_found,
    with_copy,
};
use crate::laws::replay::replay;
use crate::laws::soundness::{
    is_closing, is_preflight, runs_are_sound, sound, tags_move_on_demand, tags_wait_for_the_rounds,
    the_end_is_the_end,
};
use crate::laws::world::{lemma_course, Refs, World};
use crate::messages::{cleaning, fixpoint, moving_tags, nothing_to_do, tag_left};
use crate::model::{
    listed, print_left, start, Effect, Goal, Ledger, Options, Outcome, Pass, Reply, Request, Run,
    Scan, Stage, Sweep,
};
use crate::oid::Oid;
use crate::refs::{is_tag, movable, tags_of, Ref};
use crate::rewrites::{after, chain_end_is_reached, is_end, target_of, Target};
use crate::text::{all_copies_are_trimmed, times, trimmed, Text};
use crate::walk::{candidates, with_root, Candidate};
use crate::laws::turns::tags_go_to_what_is_there;
use crate::laws::rounds::the_end_of_the_rounds_is_announced;

verus! {

/// The commits that were copied in a run, with their copies: those that the run has asked for and
/// was told of.
pub open spec fn copies(run: Run, replies: Seq<Reply>) -> Map<Oid, Oid>
    decreases replies.len(),
{
    if replies.len() == 0 {
        Map::empty()
    } else {
        let front = replies.drop_last();
        with_copy(copies(run, front), replay(run, front).0.request(), replies.last())
    }
}

/// Each commit on the path leads to the next one, and the last one leads nowhere else.
pub open spec fn leads(map: Map<Oid, Oid>, path: Seq<Oid>) -> bool {
    &&& path.len() > 0
    &&& forall|i: int|
        0 <= i < path.len() - 1 ==> map.contains_key(#[trigger] path[i]) && map[path[i]] == path[i
            + 1]
    &&& map.contains_key(path.last()) ==> map[path.last()] == path.last()
}

/// The run has done with the tag what is to be done with it.
spec fn is_seen_to(ledger: Ledger, effects: Seq<Effect>, tag: Ref) -> bool {
    if ledger.options.move_tags {
        match target_of(ledger.rewrites, ledger.duplicates, tag.target) {
            Target::Stays => true,
            Target::Moves(target) => effects.contains(
                Effect::SetTag { name: trimmed(tag.name, "refs/tags/"@), target },
            ),
            Target::Endless => false,
        }
    } else {
        ledger.duplicates.contains_key(tag.target) ==> effects.contains(
            Effect::Print(tag.name + " left"@),
        )
    }
}

/// All tags are seen to, but for those that are left.
spec fn are_seen_to(ledger: Ledger, effects: Seq<Effect>, left: Seq<Ref>) -> bool {
    forall|tag: Ref| #[trigger]
        tags_of(ledger.initial).contains(tag) ==> is_seen_to(ledger, effects, tag) || left.contains(
            tag,
        )
}

/// The tags are ones that the run has found.
spec fn are_found(ledger: Ledger, tags: Seq<Ref>) -> bool {
    forall|i: int| 0 <= i < tags.len() ==> tags_of(ledger.initial).contains(#[trigger] tags[i])
}

/// The rewrites of the commit of a tag go round in a circle.
spec fn is_in_a_circle(ledger: Ledger) -> bool {
    exists|tag: Ref| #[trigger]
        tags_of(ledger.initial).contains(tag) && target_of(
            ledger.rewrites,
            ledger.duplicates,
            tag.target,
        ) == Target::Endless
}

/// What holds of a run that is not dry: once the rounds are over, all tags are seen to or left; at
/// the end none is left.
spec fn follows(run: Run, effects: Seq<Effect>) -> bool {
    match run.stage {
        Stage::Tag { tag, target, rest } => {
            &&& run.ledger.options.move_tags
            &&& target_of(run.ledger.rewrites, run.ledger.duplicates, tag.target) == Target::Moves(
                target,
            )
            &&& are_seen_to(run.ledger, effects, seq![tag] + rest)
            &&& are_found(run.ledger, rest)
        },
        Stage::Stuck => is_in_a_circle(run.ledger),
        Stage::Cleanup => are_seen_to(run.ledger, effects, Seq::empty()),
        Stage::Finished(Outcome::Success) => are_seen_to(run.ledger, effects, Seq::empty()),
        _ => true,
    }
}

/// What has happened stays so.
proof fn lemma_more(ledger: Ledger, effects: Seq<Effect>, more: Seq<Effect>, left: Seq<Ref>)
    requires
        are_seen_to(ledger, effects, left),
    ensures
        are_seen_to(ledger, effects + more, left),
{
    let all = effects + more;
    assert forall|effect: Effect| effects.contains(effect) implies #[trigger] all.contains(
        effect,
    ) by {
        let i = choose|i: int| 0 <= i < effects.len() && effects[i] == effect;
        assert(all[i] == effect);
    }
    assert forall|tag: Ref| #[trigger] tags_of(ledger.initial).contains(tag) implies is_seen_to(
        ledger,
        all,
        tag,
    ) || left.contains(tag) by {
        assert(is_seen_to(ledger, effects, tag) || left.contains(tag));
    }
}

proof fn lemma_tag(ledger: Ledger, tags: Seq<Ref>, before: Seq<Effect>, effects: Seq<Effect>)
    requires
        ledger.options.move_tags,
        are_seen_to(ledger, before + effects, tags),
        are_found(ledger, tags),
    ensures
        follows(ledger.tag(tags, effects).0, before + ledger.tag(tags, effects).1),
    decreases tags.len(),
{
    if tags.len() > 0 {
        let rest = tags.drop_first();
        assert(tags_of(ledger.initial).contains(tags[0]));
        assert forall|i: int| 0 <= i < rest.len() implies tags_of(ledger.initial).contains(
            #[trigger] rest[i],
        ) by {
            assert(rest[i] == tags[i + 1]);
        }
        assert(seq![tags[0]] + rest =~= tags);
        if target_of(ledger.rewrites, ledger.duplicates, tags[0].target) == Target::Stays {
            assert forall|tag: Ref| #[trigger]
                tags_of(ledger.initial).contains(tag) implies is_seen_to(
                ledger,
                before + effects,
                tag,
            ) || rest.contains(tag) by {
                if !is_seen_to(ledger, before + effects, tag) {
                    let i = choose|i: int| 0 <= i < tags.len() && tags[i] == tag;
                    assert(i > 0);
                    assert(rest[i - 1] == tag);
                }
            }
            lemma_tag(ledger, rest, before, effects);
        }
    } else {
        let said = Effect::Print(cleaning());
        assert(tags =~= Seq::<Ref>::empty());
        lemma_more(ledger, before + effects, seq![said], Seq::empty());
        assert(before + effects + seq![said] =~= before + effects.push(said));
    }
}

proof fn lemma_tags(ledger: Ledger, before: Seq<Effect>, effects: Seq<Effect>)
    requires
        !ledger.options.dry_run,
    ensures
        follows(ledger.tags(effects).0, before + ledger.tags(effects).1),
{
    let tags = tags_of(ledger.initial);
    if ledger.options.move_tags {
        lemma_tag(ledger, tags, before, effects.push(Effect::Print(moving_tags())));
    } else {
        let stuck = |tag: Ref| ledger.duplicates.contains_key(tag.target);
        let kept = tags.filter(stuck);
        let left = print_left(tags, ledger.duplicates);
        let all = before + ledger.tags(effects).1;
        assert forall|tag: Ref| #[trigger] tags.contains(tag) implies is_seen_to(
            ledger,
            all,
            tag,
        ) by {
            if ledger.duplicates.contains_key(tag.target) {
                let i = choose|i: int| 0 <= i < tags.len() && tags[i] == tag;
                tags.lemma_filter_contains(stuck, i);
                let k = choose|k: int| 0 <= k < kept.len() && kept[k] == tag;
                assert(left[k] == Effect::Print(tag_left(tag.name)));
                assert(all[before.len() + effects.len() + k] == Effect::Print(
                    tag.name + " left"@,
                ));
            }
        }
    }
}

proof fn lemma_scan(
    ledger: Ledger,
    pass: Pass,
    pairs: Seq<Candidate>,
    before: Seq<Effect>,
    effects: Seq<Effect>,
)
    requires
        !ledger.options.dry_run,
    ensures
        follows(ledger.scan(pass, pairs, effects).0, before + ledger.scan(pass, pairs, effects).1),
{
    lemma_tags(ledger, before, effects.push(Effect::Print(fixpoint(ledger.round))));
}

proof fn lemma_sweep(
    ledger: Ledger,
    scan: Scan,
    heads: Seq<Ref>,
    before: Seq<Effect>,
    effects: Seq<Effect>,
)
    requires
        !ledger.options.dry_run,
    ensures
        follows(
            ledger.sweep(scan, heads, effects).0,
            before + ledger.sweep(scan, heads, effects).1,
        ),
{
    lemma_scan(ledger, scan.pass, scan.rest, before, effects);
}

proof fn lemma_relocated(
    ledger: Ledger,
    sweep: Sweep,
    before: Seq<Effect>,
    effects: Seq<Effect>,
)
    requires
        !ledger.options.dry_run,
    ensures
        follows(
            ledger.relocated(sweep, effects).0,
            before + ledger.relocated(sweep, effects).1,
        ),
{
    let scan = Scan { pass: Pass { changed: true, ..sweep.scan.pass }, ..sweep.scan };
    lemma_sweep(Ledger { changed: true, ..ledger }, scan, sweep.rest, before, effects);
}

proof fn lemma_copy(
    ledger: Ledger,
    sweep: Sweep,
    parent: Oid,
    commits: Seq<Oid>,
    before: Seq<Effect>,
)
    requires
        !ledger.options.dry_run,
    ensures
        follows(
            ledger.copy(sweep, parent, commits).0,
            before + ledger.copy(sweep, parent, commits).1,
        ),
{
    let moved = Effect::SetRef {
        name: sweep.head.name,
        target: parent,
        message: "rebase_branch_onto"@,
    };
    lemma_relocated(ledger, sweep, before, seq![moved]);
}

proof fn lemma_walked(ledger: Ledger, goal: Goal, commits: Seq<Oid>, before: Seq<Effect>)
    requires
        !ledger.options.dry_run,
    ensures
        follows(ledger.walked(goal, commits).0, before + ledger.walked(goal, commits).1),
{
    match goal {
        Goal::Round => {
            lemma_tags(ledger, before, seq![Effect::Print(nothing_to_do())]);
        },
        Goal::Pass(pass) => {
            lemma_scan(
                ledger,
                pass,
                candidates(commits, ledger.canonicals, ledger.root),
                before,
                Seq::empty(),
            );
        },
        _ => {},
    }
}

proof fn lemma_step(run: Run, before: Seq<Effect>, reply: Reply)
    requires
        !run.ledger.options.dry_run,
        follows(run, before),
    ensures
        follows(run.advance(reply).0, before + run.advance(reply).1),
{
    let ledger = run.ledger;
    match (run.stage, reply) {
        (Stage::WalkNames(goal), Reply::Refs(_)) => {
            lemma_walked(ledger, goal, Seq::empty(), before);
        },
        (Stage::Walk { goal, .. }, Reply::Commits(Ok(commits))) => {
            lemma_walked(ledger, goal, with_root(commits, ledger.root), before);
        },
        (Stage::Candidate(scan), Reply::Answer(_)) => {
            lemma_scan(ledger, scan.pass, scan.rest, before, Seq::empty());
        },
        (Stage::Branches(scan), Reply::Refs(refs)) => {
            if let Ok(refs) = listed(refs) {
                let heads = movable(refs, scan.current.commit);
                lemma_sweep(ledger, scan, heads, before, Seq::empty());
            }
        },
        (Stage::Descends(sweep), Reply::Answer(_)) => {
            lemma_sweep(ledger, sweep.scan, sweep.rest, before, Seq::empty());
        },
        (Stage::Tip(sweep), Reply::Commit(_)) => {
            lemma_relocated(ledger, sweep, before, Seq::empty());
        },
        (Stage::Line { sweep, .. }, Reply::Commits(_)) => {
            lemma_relocated(ledger, sweep, before, Seq::empty());
        },
        (Stage::Signature { sweep, commits }, Reply::Found(_)) => {
            lemma_relocated(ledger, sweep, before, Seq::empty());
            lemma_copy(ledger, sweep, sweep.scan.current.canonical, commits, before);
        },
        (Stage::Copy { sweep, current, rest, .. }, Reply::Commit(written)) => {
            lemma_relocated(ledger, sweep, before, Seq::empty());
            if let Ok(copy) = written {
                let noted = Ledger { rewrites: ledger.rewrites.insert(current, copy), ..ledger };
                lemma_copy(noted, sweep, copy, rest, before);
            }
        },
        (Stage::Tag { .. }, _) => {
            lemma_tag_step(run, before, reply);
        },
        (Stage::Cleanup, _) => {
            lemma_more(ledger, before, run.advance(reply).1, Seq::empty());
        },
        _ => {
            assert(before + Seq::<Effect>::empty() =~= before);
        },
    }
}

proof fn lemma_tag_step(run: Run, before: Seq<Effect>, reply: Reply)
    requires
        run.stage is Tag,
        follows(run, before),
    ensures
        follows(run.advance(reply).0, before + run.advance(reply).1),
{
    let ledger = run.ledger;
    assert(before + Seq::<Effect>::empty() =~= before);
    if let (Stage::Tag { tag, target, rest }, Reply::Found(Ok(_))) = (run.stage, reply) {
        let moved = Effect::SetTag { name: trimmed(tag.name, "refs/tags/"@), target };
        let all = before + seq![moved];
        lemma_more(ledger, before, seq![moved], seq![tag] + rest);
        assert(all[before.len() as int] == moved);
        assert(is_seen_to(ledger, all, tag));
        assert forall|t: Ref| #[trigger] tags_of(ledger.initial).contains(t) implies is_seen_to(
            ledger,
            all,
            t,
        ) || rest.contains(t) by {
            if !is_seen_to(ledger, all, t) {
                let left = seq![tag] + rest;
                let i = choose|i: int| 0 <= i < left.len() && left[i] == t;
                assert(i > 0);
                assert(rest[i - 1] == t);
            }
        }
        lemma_tag(ledger, rest, before, seq![moved]);
    }
}

proof fn lemma_follows(options: Options, root: Oid, replies: Seq<Reply>)
    requires
        !options.dry_run,
    ensures
        ({
            let (run, effects) = replay(start(options, root), replies);
            &&& follows(run, effects)
            &&& run.ledger.options == options
            &&& run.ledger.rewrites == copies(start(options, root), replies)
        }),
    decreases replies.len(),
{
    if replies.len() > 0 {
        let front = replies.drop_last();
        lemma_follows(options, root, front);
        let (run, before) = replay(start(options, root), front);
        lemma_step(run, before, replies.last());
        if !is_preflight(run.stage) {
            lemma_notes(run, replies.last());
        }
    }
}

/// A path leads to where the rewrites end.
proof fn lemma_path(map: Map<Oid, Oid>, path: Seq<Oid>, i: int)
    requires
        leads(map, path),
        0 <= i < path.len(),
    ensures
        after(map, path[0], i as nat) == path[i],
    decreases i,
{
    if i > 0 {
        lemma_path(map, path, i - 1);
        assert(map.contains_key(path[i - 1]));
    }
}

/// In a run that succeeds, is not dry and was asked to move tags, each tag that was at the root or
/// above it when the run began is set to the commit at which the copies of its commit end. Where it
/// was not copied, and another commit stood for it when the run began, the tag is set to that one.
/// A tag goes by its name without the prefix, as often as that is there.
pub proof fn every_tag_follows_its_commit(
    world: World,
    first: Refs,
    options: Options,
    root: Oid,
    replies: Seq<Reply>,
    short: Text,
    n: nat,
    path: Seq<Oid>,
    canonical: Oid,
)
    requires
        world.wf(),
        !options.dry_run,
        options.move_tags,
        world.is_honest(first, start(options, root), replies),
        replay(start(options, root), replies).0.request() == Request::Finished(Outcome::Success),
        n > 0,
        !"refs/tags/"@.is_prefix_of(short),
        ({
            let name = times("refs/tags/"@, n) + short;
            &&& first.contains_key(name)
            &&& (world.reach)(first[name]).contains(world.root)
            &&& leads(copies(start(options, root), replies), path)
            &&& path[0] == first[name]
        }),
    ensures
        ({
            let effects = replay(start(options, root), replies).1;
            &&& path.last() != path[0] ==> effects.contains(
                Effect::SetTag { name: short, target: path.last() },
            )
            &&& path.last() == path[0] && world.is_in_play(first, path[0]) && world.stands_for(
                first,
                canonical,
                path[0],
            ) && canonical != path[0] ==> effects.contains(
                Effect::SetTag { name: short, target: canonical },
            )
        }),
{
    let (run, effects) = replay(start(options, root), replies);
    let name = times("refs/tags/"@, n) + short;
    let tag = Ref { name, target: first[name] };
    lemma_found_tag(world, first, options, root, replies, tag);
    lemma_follows(options, root, replies);
    reveal_strlit("refs/tags/");
    all_copies_are_trimmed("refs/tags/"@, n, short);
    let map = run.ledger.rewrites;
    lemma_path(map, path, path.len() - 1);
    assert(is_end(map, after(map, path[0], (path.len() - 1) as nat)));
    chain_end_is_reached(map, path[0], (path.len() - 1) as nat);
    assert(is_seen_to(run.ledger, effects, tag)) by {
        assert(!Seq::<Ref>::empty().contains(tag));
    }
    noted_duplicates(world, first, options, root, replies, path[0], canonical);
}

/// The tag is among those that the run has found.
proof fn lemma_found_tag(
    world: World,
    first: Refs,
    options: Options,
    root: Oid,
    replies: Seq<Reply>,
    tag: Ref,
)
    requires
        world.wf(),
        world.is_honest(first, start(options, root), replies),
        replay(start(options, root), replies).0.request() == Request::Finished(Outcome::Success),
        first.contains_key(tag.name),
        first[tag.name] == tag.target,
        world.reaches(tag.target, world.root),
        exists|n: nat, short: Text| n > 0 && tag.name == #[trigger] (times("refs/tags/"@, n) + short),
    ensures
        tags_of(replay(start(options, root), replies).0.ledger.initial).contains(tag),
{
    let (n, short) = choose|n: nat, short: Text|
        n > 0 && tag.name == #[trigger] (times("refs/tags/"@, n) + short);
    let rest = times("refs/tags/"@, (n - 1) as nat) + short;
    assert(tag.name =~= "refs/tags/"@ + rest);
    assert(tag.name.subrange(0, "refs/tags/"@.len() as int) =~= "refs/tags/"@);
    lemma_course(first, start(options, root), replies);
    references_above_the_root_are_found(
        world,
        first,
        options,
        root,
        replies,
        tag.name,
        tag.target,
    );
    let initial = replay(start(options, root), replies).0.ledger.initial;
    let i = choose|i: int| 0 <= i < initial.len() && initial[i] == tag;
    initial.lemma_filter_contains(|r: Ref| is_tag(r.name), i);
}

/// The tag is one that was found, and is to go to the target.
spec fn is_due(ledger: Ledger, name: Text, target: Oid) -> bool {
    exists|tag: Ref| #[trigger]
        tags_of(ledger.initial).contains(tag) && name == trimmed(tag.name, "refs/tags/"@)
            && target_of(ledger.rewrites, ledger.duplicates, tag.target) == Target::Moves(target)
}

/// All tags that were set are due.
spec fn all_due(ledger: Ledger, effects: Seq<Effect>) -> bool {
    forall|i: int|
        0 <= i < effects.len() ==> ((#[trigger] effects[i]) matches Effect::SetTag { name, target }
            ==> is_due(ledger, name, target))
}

proof fn lemma_due_step(run: Run, before: Seq<Effect>, reply: Reply)
    requires
        sound(run),
        run.stage is Finished || is_closing(run.stage),
        all_due(run.ledger, before),
    ensures
        all_due(run.advance(reply).0.ledger, before + run.advance(reply).1),
{
    let ledger = run.ledger;
    match (run.stage, reply) {
        (Stage::Tag { tag, target, rest }, Reply::Found(Ok(_))) => {
            let moved = Effect::SetTag { name: trimmed(tag.name, "refs/tags/"@), target };
            crate::laws::rounds::lemma_tag(ledger, rest, seq![moved]);
            tags_go_to_what_is_there(ledger, tag, target, rest);
            assert(ledger.at(run.stage) == run);
            assert(is_due(ledger, trimmed(tag.name, "refs/tags/"@), target));
        },
        _ => {},
    }
}

proof fn lemma_due(options: Options, root: Oid, replies: Seq<Reply>)
    requires
        !(replay(start(options, root), replies).0.stage matches Stage::Finished(
            Outcome::Failed(_),
        )),
    ensures
        all_due(
            replay(start(options, root), replies).0.ledger,
            replay(start(options, root), replies).1,
        ),
    decreases replies.len(),
{
    tags_wait_for_the_rounds(options, root, replies);
    if replies.len() > 0 {
        let front = replies.drop_last();
        let reply = replies.last();
        let (run, before) = replay(start(options, root), front);
        let step = run.advance(reply);
        if run.stage is Finished {
            the_end_is_the_end(run, reply);
        }
        lemma_due(options, root, front);
        runs_are_sound(options, root, front);
        tags_wait_for_the_rounds(options, root, front);
        if run.stage is Finished || is_closing(run.stage) {
            lemma_due_step(run, before, reply);
        } else if is_closing(step.0.stage) {
            the_end_of_the_rounds_is_announced(run, reply);
        }
    }
}

/// Each tag that a run sets is one that was at the root or above it when the run began, without the
/// prefix of its name, and goes to where the copies of its commit end; or, where it was not copied,
/// to the commit that stood for it when the run began.
pub proof fn tags_are_set_for_a_reason(
    world: World,
    first: Refs,
    options: Options,
    root: Oid,
    replies: Seq<Reply>,
    i: int,
    name: Text,
    target: Oid,
) -> (found: (Text, Seq<Oid>))
    requires
        world.wf(),
        world.is_honest(first, start(options, root), replies),
        replay(start(options, root), replies).0.request() == Request::Finished(Outcome::Success),
        0 <= i < replay(start(options, root), replies).1.len(),
        replay(start(options, root), replies).1[i] == (Effect::SetTag { name, target }),
    ensures
        ({
            let (full, path) = found;
            &&& first.contains_key(full)
            &&& "refs/tags/"@.is_prefix_of(full)
            &&& name == trimmed(full, "refs/tags/"@)
            &&& (world.reach)(first[full]).contains(world.root)
            &&& leads(copies(start(options, root), replies), path)
            &&& path[0] == first[full]
            &&& path.last() != path[0] ==> target == path.last()
            &&& path.last() == path[0] ==> world.is_in_play(first, path[0]) && world.stands_for(
                first,
                target,
                path[0],
            ) && target != path[0]
        }),
{
    let (run, effects) = replay(start(options, root), replies);
    let ledger = run.ledger;
    lemma_due(options, root, replies);
    tags_move_on_demand(options, root, replies, i);
    lemma_follows(options, root, replies);
    assert(effects[i] == Effect::SetTag { name, target });
    let tag = choose|tag: Ref| #[trigger]
        tags_of(ledger.initial).contains(tag) && name == trimmed(tag.name, "refs/tags/"@)
            && target_of(ledger.rewrites, ledger.duplicates, tag.target) == Target::Moves(target);
    let wanted = |r: Ref| is_tag(r.name);
    let tags = tags_of(ledger.initial);
    ledger.initial.lemma_filter_contains_rev(wanted, tag);
    let k = choose|k: int| 0 <= k < tags.len() && tags[k] == tag;
    ledger.initial.lemma_filter_pred(wanted, k);
    lemma_course(first, start(options, root), replies);
    references_above_the_root_are_found(
        world,
        first,
        options,
        root,
        replies,
        tag.name,
        tag.target,
    );
    let map = ledger.rewrites;
    let n = choose|n: nat| is_end(map, #[trigger] after(map, tag.target, n));
    let path = lemma_path_of(map, tag.target, n);
    lemma_path(map, path, path.len() - 1);
    chain_end_is_reached(map, tag.target, (path.len() - 1) as nat);
    if path.last() == path[0] {
        duplicates_were_so(world, first, options, root, replies, tag.target);
    }
    (tag.name, path)
}

/// A path to where the rewrites end.
proof fn lemma_path_of(map: Map<Oid, Oid>, commit: Oid, n: nat) -> (path: Seq<Oid>)
    requires
        is_end(map, after(map, commit, n)),
    ensures
        leads(map, path),
        path[0] == commit,
        is_end(map, after(map, commit, (path.len() - 1) as nat)),
    decreases n,
{
    if n > 0 && is_end(map, after(map, commit, (n - 1) as nat)) {
        lemma_path_of(map, commit, (n - 1) as nat)
    } else {
        let path = Seq::new(n + 1, |k: int| after(map, commit, k as nat));
        assert forall|k: int| 0 <= k < path.len() - 1 implies map.contains_key(#[trigger] path[k])
            && map[path[k]] == path[k + 1] by {
            lemma_no_end_before(map, commit, k as nat, n);
        }
        assert(path.last() == after(map, commit, n));
        path
    }
}

/// Before the first end there is none.
proof fn lemma_no_end_before(map: Map<Oid, Oid>, commit: Oid, k: nat, n: nat)
    requires
        k < n,
        !is_end(map, after(map, commit, (n - 1) as nat)),
    ensures
        !is_end(map, after(map, commit, k)),
    decreases n - k,
{
    if k + 1 < n {
        lemma_no_end_before(map, commit, k + 1, n);
    }
}

/// A run comes to a standstill only over a tag that it has found, at a commit whose copies go round
/// in a circle: no path leads from it to an end.
pub proof fn only_circles_bring_a_run_to_a_standstill(
    options: Options,
    root: Oid,
    replies: Seq<Reply>,
) -> (tag: Ref)
    requires
        !options.dry_run,
        replay(start(options, root), replies).0.request() == Request::Nothing,
    ensures
        replay(start(options, root), replies).0.ledger.initial.contains(tag),
        "refs/tags/"@.is_prefix_of(tag.name),
        forall|path: Seq<Oid>| #[trigger]
            leads(copies(start(options, root), replies), path) ==> path[0] != tag.target,
{
    lemma_follows(options, root, replies);
    let ledger = replay(start(options, root), replies).0.ledger;
    let tag = choose|tag: Ref| #[trigger]
        tags_of(ledger.initial).contains(tag) && target_of(
            ledger.rewrites,
            ledger.duplicates,
            tag.target,
        ) == Target::Endless;
    let wanted = |r: Ref| is_tag(r.name);
    ledger.initial.lemma_filter_contains_rev(wanted, tag);
    let tags = tags_of(ledger.initial);
    let k = choose|k: int| 0 <= k < tags.len() && tags[k] == tag;
    ledger.initial.lemma_filter_pred(wanted, k);
    assert forall|path: Seq<Oid>| #[trigger]
        leads(copies(start(options, root), replies), path) implies path[0] != tag.target by {
        let map = ledger.rewrites;
        lemma_path(map, path, path.len() - 1);
        if path[0] == tag.target {
            assert(is_end(map, after(map, path[0], (path.len() - 1) as nat)));
            chain_end_is_reached(map, path[0], (path.len() - 1) as nat);
        }
    }
    tag
}

/// In a run that succeeds, is not dry and was not asked to move tags, a line names each tag that was
/// at a commit for which another stood when the run began, and at the root or above it.
pub proof fn tags_that_stay_are_named(
    world: World,
    first: Refs,
    options: Options,
    root: Oid,
    replies: Seq<Reply>,
    name: Text,
    canonical: Oid,
)
    requires
        world.wf(),
        !options.dry_run,
        !options.move_tags,
        world.is_honest(first, start(options, root), replies),
        replay(start(options, root), replies).0.request() == Request::Finished(Outcome::Success),
        first.contains_key(name),
        "refs/tags/"@.is_prefix_of(name),
        (world.reach)(first[name]).contains(world.root),
        world.is_in_play(first, first[name]),
        world.stands_for(first, canonical, first[name]),
        canonical != first[name],
    ensures
        replay(start(options, root), replies).1.contains(Effect::Print(name + " left"@)),
{
    let (run, effects) = replay(start(options, root), replies);
    let tag = Ref { name, target: first[name] };
    let short = name.skip("refs/tags/"@.len() as int);
    assert(name =~= "refs/tags/"@ + short);
    assert(times("refs/tags/"@, 1) =~= "refs/tags/"@) by {
        assert(times("refs/tags/"@, 0) =~= Seq::<char>::empty());
    }
    assert(name == times("refs/tags/"@, 1) + short);
    lemma_found_tag(world, first, options, root, replies, tag);
    lemma_follows(options, root, replies);
    noted_duplicates(world, first, options, root, replies, tag.target, canonical);
    assert(is_seen_to(run.ledger, effects, tag)) by {
        assert(!Seq::<Ref>::empty().contains(tag));
    }
}

} // verus!
