//! How a run begins, and how it deals with replies.
use vstd::prelude::*;
use crate::laws::keeping::{
    lemma_copy_goes_on, lemma_relocate_goes_on, lemma_relocated_goes_on, lemma_scan_goes_on,
    lemma_sweep_goes_on, lemma_tag_goes_on, lemma_walked_goes_on,
};
use crate::model::{
    listed, options, start, Effect, Ledger, Options, Outcome, Reply, Request, Run, Stage,
};
use crate::oid::Oid;
use crate::refs::{local_refs, movable, Failure, Record, Ref};
use crate::text::{trimmed, Text};
use crate::walk::with_root;
use crate::laws::sifting::lemma_leading;

verus! {

/// A run first asks whether the worktree is clean. If it is, the run asks for the commit that was
/// named as the root, whatever was named as the base; or else for the one that was named as the
/// base; or else for the current one.
pub proof fn the_root_is_chosen(
    base: Option<Text>,
    root: Option<Text>,
    dry_run: bool,
    move_tags: bool,
    max_rounds: Option<usize>,
    unknown: Oid,
)
    ensures
        ({
            let run = start(options(base, root, dry_run, move_tags, max_rounds), unknown);
            let asked = run.advance(Reply::Count(Ok(0))).0.request();
            &&& run.request() == Request::Statuses
            &&& root matches Some(name) ==> asked == Request::ResolveCommit(name)
            &&& root is None && base is Some ==> asked == Request::ResolveCommit(base->0)
            &&& root is None && base is None ==> asked == Request::ResolveCommit("HEAD"@)
        }),
{
}

/// A run goes by what it was asked to do: whether to change anything, whether to move tags, and how
/// many rounds there may be, where that was limited.
pub proof fn wishes_are_heeded(
    base: Option<Text>,
    root: Option<Text>,
    dry_run: bool,
    move_tags: bool,
    max_rounds: Option<usize>,
)
    ensures
        ({
            let taken = options(base, root, dry_run, move_tags, max_rounds);
            &&& taken.dry_run == dry_run
            &&& taken.move_tags == move_tags
            &&& max_rounds matches Some(limit) ==> taken.max_rounds == limit
            &&& max_rounds is None ==> taken.max_rounds == 0
        }),
{
}

/// Any change in the worktree, one or many, has the run refused, with a line on the standard error;
/// without changes it goes on to the root, and says nothing.
pub proof fn only_a_clean_worktree_will_do(options: Options, unknown: Oid, changes: usize)
    ensures
        ({
            let step = start(options, unknown).advance(Reply::Count(Ok(changes)));
            &&& changes > 0 ==> {
                &&& step.0.request() == Request::Finished(Outcome::Exit(1))
                &&& step.1 == seq![Effect::Warn("error: worktree must be clean"@)]
            }
            &&& changes == 0 ==> {
                &&& step.0.request() == Request::ResolveCommit(options.root_name)
                &&& step.1 == Seq::<Effect>::empty()
            }
        }),
{
}

/// A root that names no commit has the run refused; with one that does, the run asks for the
/// references, and then whether they descend from that commit.
pub proof fn only_a_root_that_is_a_commit_will_do(
    options: Options,
    unknown: Oid,
    found: Result<Oid, Failure>,
)
    ensures
        ({
            let run = start(options, unknown).advance(Reply::Count(Ok(0))).0;
            let step = run.advance(Reply::Commit(found));
            match found {
                Ok(root) => {
                    &&& step.0.request() == Request::ListRefs
                    &&& step.0.ledger.root == root
                    &&& step.1 == Seq::<Effect>::empty()
                },
                Err(_) => {
                    &&& step.0.request() == Request::Finished(Outcome::Exit(1))
                    &&& step.1 == seq![
                        Effect::Warn("error: invalid root commit: "@ + options.root_name),
                    ]
                },
            }
        }),
{
}

/// The reply is of the kind that the request asks for.
pub open spec fn answers(request: Request, reply: Reply) -> bool {
    match request {
        Request::Statuses => reply is Count,
        Request::ResolveCommit(_) => reply is Commit,
        Request::ListRefs => reply is Refs,
        Request::Descendant { .. } => reply is Answer,
        Request::WalkRefs { .. } => reply is Commits,
        Request::ReadCommit(_) => reply is TreeAndDate,
        Request::CountCommits { .. } => reply is Count,
        Request::FindCommit(_) => reply is Found,
        Request::FindRef(_) => reply is Found,
        Request::PeelRef(_) => reply is Commit,
        Request::WalkCommits { .. } => reply is Commits,
        Request::TakeSignature => reply is Found,
        Request::CopyCommit { .. } => reply is Commit,
        Request::FindObject(_) => reply is Found,
        Request::Nothing => false,
        Request::Finished(_) => false,
    }
}

/// A reply of another kind than the request changes nothing.
pub proof fn other_replies_change_nothing(run: Run, reply: Reply)
    requires
        !answers(run.request(), reply),
    ensures
        run.advance(reply) == (run, Seq::<Effect>::empty()),
{
}

/// A reply of the kind that was asked for is never lost: the run is about to learn something else
/// then, or has ended.
pub proof fn replies_are_taken(run: Run, reply: Reply)
    requires
        answers(run.request(), reply),
    ensures
        run.advance(reply).0.stage != run.stage,
{
    let ledger = run.ledger;
    let stage = run.advance(reply).0.stage;
    match (run.stage, reply) {
        (Stage::Descent { rest, .. }, Reply::Answer(_)) => {
            lemma_leading(rest, ledger.root);
            assert(stage matches Stage::Descent { rest: left, .. } ==> left.len() < rest.len());
        },
        (Stage::Info { done, .. }, Reply::TreeAndDate(_)) => {
            assert(stage matches Stage::Info { done: more, .. } ==> more.len() > done.len());
        },
        (Stage::Branch { rest, .. }, Reply::Found(_)) => {
            assert(stage matches Stage::Branch { rest: left, .. } ==> left.len() < rest.len());
        },
        (Stage::WalkNames(goal), Reply::Refs(_)) => {
            lemma_walked_goes_on(ledger, goal, Seq::empty());
        },
        (Stage::Walk { goal, .. }, Reply::Commits(Ok(commits))) => {
            lemma_walked_goes_on(ledger, goal, with_root(commits, ledger.root));
        },
        (Stage::Candidate(scan), Reply::Answer(_)) => {
            lemma_scan_goes_on(ledger, scan.pass, scan.rest, Seq::empty());
        },
        (Stage::Branches(scan), Reply::Refs(refs)) => {
            if let Ok(refs) = listed(refs) {
                lemma_sweep_goes_on(
                    ledger,
                    scan,
                    movable(refs, scan.current.commit),
                    Seq::empty(),
                );
            }
        },
        (Stage::Descends(sweep), Reply::Answer(_)) => {
            lemma_relocate_goes_on(ledger, sweep);
            lemma_sweep_goes_on(ledger, sweep.scan, sweep.rest, Seq::empty());
        },
        (Stage::Tip(sweep), Reply::Commit(_)) => {
            lemma_relocated_goes_on(ledger, sweep, Seq::empty());
        },
        (Stage::Line { sweep, .. }, Reply::Commits(_)) => {
            lemma_relocated_goes_on(ledger, sweep, Seq::empty());
        },
        (Stage::Signature { sweep, commits }, Reply::Found(_)) => {
            lemma_relocated_goes_on(ledger, sweep, Seq::empty());
            lemma_copy_goes_on(ledger, sweep, sweep.scan.current.canonical, commits);
        },
        (Stage::Copy { sweep, current, rest, .. }, Reply::Commit(written)) => {
            lemma_relocated_goes_on(ledger, sweep, Seq::empty());
            if let Ok(copy) = written {
                let noted = Ledger { rewrites: ledger.rewrites.insert(current, copy), ..ledger };
                lemma_copy_goes_on(noted, sweep, copy, rest);
            }
        },
        (Stage::Tag { tag, target, rest }, Reply::Found(Ok(_))) => {
            lemma_tag_goes_on(
                ledger,
                rest,
                seq![Effect::SetTag { name: trimmed(tag.name, "refs/tags/"@), target }],
            );
        },
        _ => {},
    }
}

/// The reply tells of this error.
pub open spec fn tells_of(reply: Reply, error: Failure) -> bool {
    match reply {
        Reply::Count(told) => told == Err::<usize, Failure>(error),
        Reply::Commit(told) => told == Err::<Oid, Failure>(error),
        Reply::Refs(told) => match told {
            Ok(records) => exists|i: int|
                0 <= i < records.len() && #[trigger] records[i] == Err::<Record, Failure>(error),
            Err(other) => other == error,
        },
        Reply::Answer(told) => told == Err::<bool, Failure>(error),
        Reply::Commits(told) => told == Err::<Seq<Oid>, Failure>(error),
        Reply::TreeAndDate(told) => told == Err::<(Oid, i64), Failure>(error),
        Reply::Found(told) => told == Err::<(), Failure>(error),
    }
}

/// Without the answer to any of these questions a run cannot go on: it ends with the error that it
/// was told of, whatever that is, and does nothing more. A listing is one of them, but for the last
/// one, and a listing with a record that cannot be read is none.
pub proof fn failures_end_a_run(run: Run, error: Failure)
    ensures
        ({
            let failed = (
                Run { ledger: run.ledger, stage: Stage::Finished(Outcome::Failed(error)) },
                Seq::<Effect>::empty(),
            );
            match run.request() {
                Request::Statuses => run.advance(Reply::Count(Err(error))) == failed,
                Request::ListRefs => run.stage is Cleanup || run.advance(Reply::Refs(Err(error)))
                    == failed,
                Request::WalkRefs { .. } => run.advance(Reply::Commits(Err(error))) == failed,
                Request::ReadCommit(_) => run.advance(Reply::TreeAndDate(Err(error))) == failed,
                Request::CountCommits { .. } => run.advance(Reply::Count(Err(error))) == failed,
                Request::FindCommit(_) => run.advance(Reply::Found(Err(error))) == failed,
                Request::FindObject(_) => run.advance(Reply::Found(Err(error))) == failed,
                _ => true,
            }
        }),
{
}

proof fn lemma_unreadable(records: Seq<Result<Record, Failure>>, error: Failure)
    requires
        local_refs(records) == Err::<Seq<Ref>, Failure>(error),
    ensures
        tells_of(Reply::Refs(Ok(records)), error),
    decreases records.len(),
{
    if records.len() > 0 {
        let front = records.drop_last();
        if local_refs(front) is Err {
            lemma_unreadable(front, error);
            let i = choose|i: int|
                0 <= i < front.len() && #[trigger] front[i] == Err::<Record, Failure>(error);
            assert(records[i] == front[i]);
        } else {
            assert(records[records.len() - 1] == Err::<Record, Failure>(error));
        }
    }
}

/// A run ends with an error only if it was just told of that error.
pub proof fn failures_need_an_error(run: Run, reply: Reply, error: Failure)
    requires
        run.request() !is Finished,
        run.advance(reply).0.request() == Request::Finished(Outcome::Failed(error)),
    ensures
        tells_of(reply, error),
{
    if let Reply::Refs(Ok(records)) = reply {
        if local_refs(records) is Err {
            lemma_unreadable(records, local_refs(records)->Err_0);
        }
    }
    lemma_failed(run, reply, error);
}

proof fn lemma_failed(run: Run, reply: Reply, error: Failure)
    requires
        run.request() !is Finished,
        run.advance(reply).0.stage == Stage::Finished(Outcome::Failed(error)),
    ensures
        tells_of(reply, error) || (reply matches Reply::Refs(Ok(records)) && local_refs(records)
            == Err::<Seq<Ref>, Failure>(error)),
{
    let ledger = run.ledger;
    match (run.stage, reply) {
        (Stage::WalkNames(goal), Reply::Refs(_)) => {
            lemma_walked_goes_on(ledger, goal, Seq::empty());
        },
        (Stage::Walk { goal, .. }, Reply::Commits(Ok(commits))) => {
            lemma_walked_goes_on(
                ledger,
                goal,
                with_root(commits, ledger.root),
            );
        },
        (Stage::Candidate(scan), Reply::Answer(_)) => {
            lemma_scan_goes_on(ledger, scan.pass, scan.rest, Seq::empty());
        },
        (Stage::Branches(scan), Reply::Refs(refs)) => {
            if let Ok(refs) = listed(refs) {
                lemma_sweep_goes_on(
                    ledger,
                    scan,
                    movable(refs, scan.current.commit),
                    Seq::empty(),
                );
            }
        },
        (Stage::Descends(sweep), Reply::Answer(_)) => {
            lemma_relocate_goes_on(ledger, sweep);
            lemma_sweep_goes_on(ledger, sweep.scan, sweep.rest, Seq::empty());
        },
        (Stage::Tip(sweep), Reply::Commit(_)) => {
            lemma_relocated_goes_on(ledger, sweep, Seq::empty());
        },
        (Stage::Line { sweep, .. }, Reply::Commits(_)) => {
            lemma_relocated_goes_on(ledger, sweep, Seq::empty());
        },
        (Stage::Signature { sweep, commits }, Reply::Found(_)) => {
            lemma_relocated_goes_on(ledger, sweep, Seq::empty());
            lemma_copy_goes_on(ledger, sweep, sweep.scan.current.canonical, commits);
        },
        (Stage::Copy { sweep, current, rest, .. }, Reply::Commit(written)) => {
            lemma_relocated_goes_on(ledger, sweep, Seq::empty());
            if let Ok(copy) = written {
                let noted = Ledger {
                    rewrites: ledger.rewrites.insert(current, copy),
                    ..ledger
                };
                lemma_copy_goes_on(noted, sweep, copy, rest);
            }
        },
        (Stage::Tag { tag, target, rest }, Reply::Found(Ok(_))) => {
            lemma_tag_goes_on(
                ledger,
                rest,
                seq![
                    Effect::SetTag { name: trimmed(tag.name, "refs/tags/"@), target },
                ],
            );
        },
        _ => {},
    }
}

} // verus!
