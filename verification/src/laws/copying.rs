//! How a branch is moved.
use vstd::prelude::*;
use crate::laws::replay::{replay, replay_from_the_front};
use crate::messages::{moving, moving_plan};
use crate::model::{Effect, Ledger, Reply, Request, Run, Stage, Sweep};
use crate::oid::Oid;

verus! {

/// The rewrites, with those of the commits into their copies.
pub open spec fn noted(rewrites: Map<Oid, Oid>, commits: Seq<Oid>, copies: Seq<Oid>) -> Map<
    Oid,
    Oid,
>
    decreases commits.len(),
{
    if commits.len() == 0 {
        rewrites
    } else {
        noted(
            rewrites.insert(commits[0], copies[0]),
            commits.drop_first(),
            copies.drop_first(),
        )
    }
}

/// The replies that tell a run of the copies.
pub open spec fn copied(copies: Seq<Oid>) -> Seq<Reply> {
    copies.map_values(|copy: Oid| Reply::Commit(Ok(copy)))
}

/// The last of the copies, or `parent` where there is none.
pub open spec fn top(parent: Oid, copies: Seq<Oid>) -> Oid {
    if copies.len() > 0 {
        copies.last()
    } else {
        parent
    }
}

/// What is left to do once the copies are made.
pub open spec fn settled(
    ledger: Ledger,
    sweep: Sweep,
    parent: Oid,
    commits: Seq<Oid>,
    copies: Seq<Oid>,
) -> (Run, Seq<Effect>) {
    Ledger { rewrites: noted(ledger.rewrites, commits, copies), ..ledger }.relocated(
        sweep,
        seq![
            Effect::SetRef {
                name: sweep.head.name,
                target: top(parent, copies),
                message: "rebase_branch_onto"@,
            },
        ],
    )
}

/// The last commit is noted to have gone to the last copy.
proof fn lemma_last_noted(rewrites: Map<Oid, Oid>, commits: Seq<Oid>, copies: Seq<Oid>)
    requires
        0 < commits.len() == copies.len(),
    ensures
        noted(rewrites, commits, copies).contains_key(commits.last()),
        noted(rewrites, commits, copies)[commits.last()] == copies.last(),
    decreases commits.len(),
{
    let next = rewrites.insert(commits[0], copies[0]);
    if commits.len() > 1 {
        lemma_last_noted(next, commits.drop_first(), copies.drop_first());
        assert(commits.drop_first().last() == commits.last());
        assert(copies.drop_first().last() == copies.last());
    } else {
        assert(noted(next, commits.drop_first(), copies.drop_first()) == next);
    }
}

proof fn lemma_copies(
    ledger: Ledger,
    sweep: Sweep,
    parent: Oid,
    commits: Seq<Oid>,
    copies: Seq<Oid>,
)
    requires
        commits.len() == copies.len(),
    ensures
        ({
            let first = ledger.copy(sweep, parent, commits);
            let later = replay(first.0, copied(copies));
            &&& (later.0, first.1 + later.1) == settled(ledger, sweep, parent, commits, copies)
            &&& forall|i: int|
                0 <= i < commits.len() ==> (#[trigger] replay(
                    first.0,
                    copied(copies).take(i),
                )).0.request() == (Request::CopyCommit {
                    source: commits[i],
                    parent: top(parent, copies.take(i)),
                })
        }),
    decreases commits.len(),
{
    let first = ledger.copy(sweep, parent, commits);
    let replies = copied(copies);
    if commits.len() == 0 {
        assert(replies =~= Seq::<Reply>::empty());
        assert(first.1 + Seq::<Effect>::empty() =~= first.1);
    } else {
        let next = Ledger { rewrites: ledger.rewrites.insert(commits[0], copies[0]), ..ledger };
        let rest = commits.drop_first();
        let rest_copies = copies.drop_first();
        lemma_copies(next, sweep, copies[0], rest, rest_copies);
        let rest_replies = copied(rest_copies);
        assert(replies =~= seq![Reply::Commit(Ok(copies[0]))] + rest_replies);
        replay_from_the_front(first.0, Reply::Commit(Ok(copies[0])), rest_replies);
        let second = next.copy(sweep, copies[0], rest);
        assert(first.0.advance(Reply::Commit(Ok(copies[0]))) == second);
        let later = replay(second.0, rest_replies);
        assert(first.1 + (second.1 + later.1) =~= second.1 + later.1);
        assert(top(copies[0], rest_copies) == top(parent, copies)) by {
            if rest_copies.len() > 0 {
                assert(rest_copies.last() == copies.last());
            }
        }
        assert forall|i: int| 0 <= i < commits.len() implies (#[trigger] replay(
            first.0,
            replies.take(i),
        )).0.request() == (Request::CopyCommit {
            source: commits[i],
            parent: top(parent, copies.take(i)),
        }) by {
            if i == 0 {
                assert(replies.take(0) =~= Seq::<Reply>::empty());
                assert(copies.take(0).len() == 0);
            } else {
                assert(replies.take(i) =~= seq![Reply::Commit(Ok(copies[0]))] + rest_replies.take(
                    i - 1,
                ));
                replay_from_the_front(
                    first.0,
                    Reply::Commit(Ok(copies[0])),
                    rest_replies.take(i - 1),
                );
                assert(replay(second.0, rest_replies.take(i - 1)).0.request()
                    == (Request::CopyCommit {
                    source: rest[i - 1],
                    parent: top(copies[0], rest_copies.take(i - 1)),
                }));
                if i > 1 {
                    assert(rest_copies.take(i - 1).last() == copies.take(i).last());
                } else {
                    assert(copies.take(1).last() == copies[0]);
                }
            }
        }
    }
}

/// A branch is moved by copying its commits above the duplicate in order, the first on top of the
/// canonical commit and each other one on top of the copy before it. Then the branch goes to the
/// last copy, or to the canonical commit where there is nothing to copy, and the run knows where
/// each commit has gone.
pub proof fn branches_are_copied_in_order(
    ledger: Ledger,
    sweep: Sweep,
    commits: Seq<Oid>,
    copies: Seq<Oid>,
)
    requires
        commits.len() == copies.len(),
    ensures
        ({
            let run = ledger.at(Stage::Signature { sweep, commits });
            let canonical = sweep.scan.current.canonical;
            let signed = Reply::Found(Ok(()));
            &&& replay(run, seq![signed] + copied(copies)) == settled(
                ledger,
                sweep,
                canonical,
                commits,
                copies,
            )
            &&& forall|i: int|
                0 <= i < commits.len() ==> (#[trigger] replay(
                    run.advance(signed).0,
                    copied(copies).take(i),
                )).0.request() == (Request::CopyCommit {
                    source: commits[i],
                    parent: top(canonical, copies.take(i)),
                })
        }),
{
    let run = ledger.at(Stage::Signature { sweep, commits });
    let signed = Reply::Found(Ok(()));
    let canonical = sweep.scan.current.canonical;
    lemma_copies(ledger, sweep, canonical, commits, copies);
    replay_from_the_front(run, signed, copied(copies));
    assert(run.advance(signed) == ledger.copy(sweep, canonical, commits));
}

/// A branch above a duplicate is moved in a run that is not dry: the run says so, learns where the
/// branch stands and which of its commits are above the duplicate, and copies them. Where the last
/// of these is the one at which the branch stands, the branch goes to the copy of that.
pub proof fn branches_above_duplicates_move(
    ledger: Ledger,
    sweep: Sweep,
    tip: Oid,
    commits: Seq<Oid>,
    copies: Seq<Oid>,
)
    requires
        !ledger.options.dry_run,
        commits.len() == copies.len(),
    ensures
        ({
            let pass = sweep.scan.pass;
            let spot = sweep.scan.current;
            let planned = Ledger {
                plan: ledger.plan.push(
                    moving_plan(pass.pattern, sweep.head.name, spot.canonical, spot.commit),
                ),
                ..ledger
            };
            let said = Effect::Print(
                moving(pass.pattern, ledger.round, pass.number, sweep.head.name, spot.canonical),
            );
            let moved = settled(planned, sweep, spot.canonical, commits, copies);
            replay(
                ledger.at(Stage::Descends(sweep)),
                seq![Reply::Answer(Ok(true))] + (seq![Reply::Commit(Ok(tip))] + (seq![
                    Reply::Commits(Ok(commits)),
                ] + (seq![Reply::Found(Ok(()))] + copied(copies)))),
            ) == (moved.0, seq![said] + moved.1)
        }),
        commits.len() > 0 && commits.last() == tip ==> ({
            let rewrites = noted(ledger.rewrites, commits, copies);
            rewrites.contains_key(tip) && rewrites[tip] == top(
                sweep.scan.current.canonical,
                copies,
            )
        }),
{
    let pass = sweep.scan.pass;
    let spot = sweep.scan.current;
    let planned = Ledger {
        plan: ledger.plan.push(
            moving_plan(pass.pattern, sweep.head.name, spot.canonical, spot.commit),
        ),
        ..ledger
    };
    let moved = settled(planned, sweep, spot.canonical, commits, copies);
    let signed = seq![Reply::Found(Ok(()))] + copied(copies);
    let walked = seq![Reply::Commits(Ok(commits))] + signed;
    let found = seq![Reply::Commit(Ok(tip))] + walked;
    let none = Seq::<Effect>::empty();
    if commits.len() > 0 {
        lemma_last_noted(ledger.rewrites, commits, copies);
    }
    branches_are_copied_in_order(planned, sweep, commits, copies);
    replay_from_the_front(
        planned.at(Stage::Line { sweep, tip }),
        Reply::Commits(Ok(commits)),
        signed,
    );
    replay_from_the_front(planned.at(Stage::Tip(sweep)), Reply::Commit(Ok(tip)), walked);
    replay_from_the_front(ledger.at(Stage::Descends(sweep)), Reply::Answer(Ok(true)), found);
    assert(none + (none + moved.1) =~= moved.1);
}

} // verus!
