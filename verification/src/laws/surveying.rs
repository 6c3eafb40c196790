//! What a run learns of commits.
use vstd::prelude::*;
use crate::canonical::CommitInfo;
use crate::laws::replay::{replay, replay_from_the_front};
use crate::model::{Effect, Ledger, Reply, Survey};
use crate::oid::Oid;

verus! {

/// What a repository holds: the tree and the date of each commit, and the number of commits
/// between it and the root.
pub struct Facts {
    pub tree: spec_fn(Oid) -> Oid,
    pub date: spec_fn(Oid) -> i64,
    pub count: spec_fn(Oid) -> usize,
}

/// The depths that are known after a commit was read.
pub open spec fn depths_with(ledger: Ledger, facts: Facts, commit: Oid) -> Map<Oid, usize> {
    if commit == ledger.root || ledger.depths.contains_key(commit) {
        ledger.depths
    } else {
        ledger.depths.insert(commit, (facts.count)(commit))
    }
}

/// What is learned of a commit. Its depth is zero at the root, and else what was counted first.
pub open spec fn learned(ledger: Ledger, facts: Facts, commit: Oid) -> CommitInfo {
    CommitInfo {
        tree_id: (facts.tree)(commit),
        depth: if commit == ledger.root {
            0
        } else {
            depths_with(ledger, facts, commit)[commit]
        },
        cdate: (facts.date)(commit),
        oid: commit,
    }
}

/// The ledger after a commit was read.
pub open spec fn ledger_with(ledger: Ledger, facts: Facts, commit: Oid) -> Ledger {
    Ledger { depths: depths_with(ledger, facts, commit), ..ledger }
}

/// What is learned of the commits one after the other.
pub open spec fn all_learned(ledger: Ledger, facts: Facts, commits: Seq<Oid>) -> Seq<CommitInfo>
    decreases commits.len(),
{
    if commits.len() == 0 {
        Seq::empty()
    } else {
        seq![learned(ledger, facts, commits[0])] + all_learned(
            ledger_with(ledger, facts, commits[0]),
            facts,
            commits.drop_first(),
        )
    }
}

/// The ledger after the commits were read.
pub open spec fn ledger_after(ledger: Ledger, facts: Facts, commits: Seq<Oid>) -> Ledger
    decreases commits.len(),
{
    if commits.len() == 0 {
        ledger
    } else {
        ledger_after(ledger_with(ledger, facts, commits[0]), facts, commits.drop_first())
    }
}

/// The replies about one commit.
pub open spec fn replies_about(ledger: Ledger, facts: Facts, commit: Oid) -> Seq<Reply> {
    let read = Reply::TreeAndDate(Ok(((facts.tree)(commit), (facts.date)(commit))));
    if commit == ledger.root || ledger.depths.contains_key(commit) {
        seq![read]
    } else {
        seq![read, Reply::Count(Ok((facts.count)(commit)))]
    }
}

/// The replies about the commits one after the other.
pub open spec fn all_replies(ledger: Ledger, facts: Facts, commits: Seq<Oid>) -> Seq<Reply>
    decreases commits.len(),
{
    if commits.len() == 0 {
        Seq::empty()
    } else {
        replies_about(ledger, facts, commits[0]) + all_replies(
            ledger_with(ledger, facts, commits[0]),
            facts,
            commits.drop_first(),
        )
    }
}

/// A run reads the commits in order, and counts the depths that it needs and does not know.
pub proof fn commits_are_surveyed_in_order(
    ledger: Ledger,
    survey: Survey,
    done: Seq<CommitInfo>,
    commits: Seq<Oid>,
    facts: Facts,
)
    ensures
        ({
            let first = ledger.survey(survey, done, commits);
            let later = replay(first.0, all_replies(ledger, facts, commits));
            (later.0, first.1 + later.1) == ledger_after(ledger, facts, commits).surveyed(
                survey,
                done + all_learned(ledger, facts, commits),
            )
        }),
    decreases commits.len(),
{
    let first = ledger.survey(survey, done, commits);
    if commits.len() == 0 {
        assert(done + all_learned(ledger, facts, commits) =~= done);
        assert(first.1 + Seq::<Effect>::empty() =~= first.1);
    } else {
        let commit = commits[0];
        let rest = commits.drop_first();
        let next = ledger_with(ledger, facts, commit);
        let info = learned(ledger, facts, commit);
        let rest_replies = all_replies(next, facts, rest);
        let read = Reply::TreeAndDate(Ok(((facts.tree)(commit), (facts.date)(commit))));
        let replies = all_replies(ledger, facts, commits);
        let second = next.survey(survey, done.push(info), rest);
        commits_are_surveyed_in_order(next, survey, done.push(info), rest, facts);
        assert(done.push(info) + all_learned(next, facts, rest) =~= done + all_learned(
            ledger,
            facts,
            commits,
        ));
        let later = replay(second.0, rest_replies);
        if commit == ledger.root || ledger.depths.contains_key(commit) {
            assert(next == ledger);
            assert(replies =~= seq![read] + rest_replies);
            replay_from_the_front(first.0, read, rest_replies);
            assert(first.0.advance(read) == second);
            assert(first.1 + (second.1 + later.1) =~= second.1 + later.1);
        } else {
            let count = Reply::Count(Ok((facts.count)(commit)));
            let tail = seq![count] + rest_replies;
            assert(replies =~= seq![read] + tail);
            replay_from_the_front(first.0, read, tail);
            let counting = first.0.advance(read);
            replay_from_the_front(counting.0, count, rest_replies);
            assert(counting.0.advance(count) == second);
            assert(first.1 + (counting.1 + (second.1 + later.1)) =~= second.1 + later.1);
        }
    }
}

} // verus!
