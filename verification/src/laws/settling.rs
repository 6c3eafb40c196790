//! When a run leaves branches where they are.
use vstd::prelude::*;
use crate::laws::replay::{replay, replay_from_the_front, replay_in_parts};
use crate::messages::{keeping_plan, Pattern};
use crate::model::{Effect, Ledger, Pass, Reply, Scan, Stage};
use crate::oid::Oid;
use crate::refs::{keep_branch, local_refs, movable, Failure, Record, Ref};
use crate::text::Text;
use crate::walk::Candidate;

verus! {

/// A repository that does not change during a pass: its references, which commits descend from
/// which, and which commits have a branch that keeps them.
pub struct Standing {
    pub records: Seq<Result<Record, Failure>>,
    pub descends: spec_fn(Oid, Oid) -> bool,
    pub kept: spec_fn(Oid) -> bool,
    /// What is said of a branch that is not there.
    pub missing: Failure,
}

impl Standing {
    /// The branches and tags.
    pub open spec fn refs(self) -> Seq<Ref> {
        local_refs(self.records)->Ok_0
    }

    /// A pass with this pattern is about the candidate.
    pub open spec fn is_due(self, pattern: Pattern, candidate: Candidate) -> bool {
        (self.descends)(candidate.commit, candidate.canonical) == (pattern == Pattern::Shallow)
    }

    /// No branch that a run may move is above the commit.
    pub open spec fn is_bare(self, commit: Oid) -> bool {
        forall|i: int|
            0 <= i < movable(self.refs(), commit).len() ==> !(self.descends)(
                (#[trigger] movable(self.refs(), commit)[i]).target,
                commit,
            )
    }

    /// What the repository tells of the branches one after the other.
    pub open spec fn answers(self, heads: Seq<Ref>, commit: Oid) -> Seq<Reply> {
        heads.map_values(|head: Ref| Reply::Answer(Ok((self.descends)(head.target, commit))))
    }

    /// What the repository tells of the branch that keeps a commit.
    pub open spec fn keep_replies(self, dry_run: bool, commit: Oid) -> Seq<Reply> {
        if dry_run {
            Seq::empty()
        } else if (self.kept)(commit) {
            seq![Reply::Found(Ok(()))]
        } else {
            seq![Reply::Found(Err(self.missing)), Reply::Found(Ok(()))]
        }
    }

    /// The branch that keeps a commit is made where there is none.
    pub open spec fn keep_effects(self, dry_run: bool, commit: Oid) -> Seq<Effect> {
        if !dry_run && !(self.kept)(commit) {
            seq![Effect::CreateBranch { name: keep_branch(commit), target: commit }]
        } else {
            Seq::empty()
        }
    }

    /// What the repository tells of one candidate.
    pub open spec fn replies(self, dry_run: bool, pattern: Pattern, candidate: Candidate) -> Seq<
        Reply,
    > {
        let first = seq![
            Reply::Answer(Ok((self.descends)(candidate.commit, candidate.canonical))),
        ];
        if self.is_due(pattern, candidate) {
            first + (self.keep_replies(dry_run, candidate.commit) + (seq![
                Reply::Refs(Ok(self.records)),
            ] + self.answers(movable(self.refs(), candidate.commit), candidate.commit)))
        } else {
            first
        }
    }

    /// What the repository tells of the candidates one after the other.
    pub open spec fn all_replies(
        self,
        dry_run: bool,
        pattern: Pattern,
        candidates: Seq<Candidate>,
    ) -> Seq<Reply>
        decreases candidates.len(),
    {
        if candidates.len() == 0 {
            Seq::empty()
        } else {
            self.replies(dry_run, pattern, candidates[0]) + self.all_replies(
                dry_run,
                pattern,
                candidates.drop_first(),
            )
        }
    }

    /// The branches that keep the candidates are made where there are none.
    pub open spec fn all_effects(
        self,
        dry_run: bool,
        pattern: Pattern,
        candidates: Seq<Candidate>,
    ) -> Seq<Effect>
        decreases candidates.len(),
    {
        if candidates.len() == 0 {
            Seq::empty()
        } else if self.is_due(pattern, candidates[0]) {
            self.keep_effects(dry_run, candidates[0].commit) + self.all_effects(
                dry_run,
                pattern,
                candidates.drop_first(),
            )
        } else {
            self.all_effects(dry_run, pattern, candidates.drop_first())
        }
    }

    /// The plan, with the candidates that are kept.
    pub open spec fn plan(
        self,
        plan: Seq<Text>,
        pattern: Pattern,
        candidates: Seq<Candidate>,
    ) -> Seq<Text>
        decreases candidates.len(),
    {
        if candidates.len() == 0 {
            plan
        } else if self.is_due(pattern, candidates[0]) {
            self.plan(
                plan.push(keeping_plan(pattern, candidates[0].commit)),
                pattern,
                candidates.drop_first(),
            )
        } else {
            self.plan(plan, pattern, candidates.drop_first())
        }
    }
}

proof fn lemma_sweep(ledger: Ledger, scan: Scan, heads: Seq<Ref>, standing: Standing)
    requires
        forall|i: int|
            0 <= i < heads.len() ==> !(standing.descends)(
                (#[trigger] heads[i]).target,
                scan.current.commit,
            ),
    ensures
        ({
            let first = ledger.sweep(scan, heads, Seq::empty());
            let later = replay(first.0, standing.answers(heads, scan.current.commit));
            (later.0, first.1 + later.1) == ledger.scan(scan.pass, scan.rest, Seq::empty())
        }),
    decreases heads.len(),
{
    let first = ledger.sweep(scan, heads, Seq::empty());
    let answers = standing.answers(heads, scan.current.commit);
    if heads.len() == 0 {
        assert(answers =~= Seq::<Reply>::empty());
        assert(first.1 + Seq::<Effect>::empty() =~= first.1);
    } else {
        let rest = heads.drop_first();
        assert forall|i: int| 0 <= i < rest.len() implies !(standing.descends)(
            (#[trigger] rest[i]).target,
            scan.current.commit,
        ) by {
            assert(rest[i] == heads[i + 1]);
        }
        lemma_sweep(ledger, scan, rest, standing);
        let no = Reply::Answer(Ok(false));
        let rest_answers = standing.answers(rest, scan.current.commit);
        assert(!(standing.descends)(heads[0].target, scan.current.commit));
        assert(answers =~= seq![no] + rest_answers);
        replay_from_the_front(first.0, no, rest_answers);
        let second = ledger.sweep(scan, rest, Seq::empty());
        assert(first.0.advance(no) == second);
        let later = replay(second.0, rest_answers);
        assert(first.1 + (second.1 + later.1) =~= second.1 + later.1);
    }
}

/// The run comes to look for the branches above a candidate that is due.
proof fn lemma_kept(ledger: Ledger, scan: Scan, standing: Standing)
    requires
        standing.is_due(scan.pass.pattern, scan.current),
    ensures
        ({
            let dry_run = ledger.options.dry_run;
            let commit = scan.current.commit;
            let asked = Reply::Answer(
                Ok((standing.descends)(scan.current.commit, scan.current.canonical)),
            );
            let noted = Ledger {
                plan: ledger.plan.push(keeping_plan(scan.pass.pattern, commit)),
                ..ledger
            };
            replay(
                ledger.at(Stage::Candidate(scan)),
                seq![asked] + standing.keep_replies(dry_run, commit),
            ) == (noted.at(Stage::Branches(scan)), standing.keep_effects(dry_run, commit))
        }),
{
    let run = ledger.at(Stage::Candidate(scan));
    let commit = scan.current.commit;
    let asked = Reply::Answer(Ok((standing.descends)(scan.current.commit, scan.current.canonical)));
    let rest = standing.keep_replies(ledger.options.dry_run, commit);
    replay_from_the_front(run, asked, rest);
    let next = run.advance(asked);
    if ledger.options.dry_run {
        assert(next.1 + Seq::<Effect>::empty() =~= Seq::<Effect>::empty());
    } else if (standing.kept)(commit) {
        let none = Seq::<Reply>::empty();
        assert(rest =~= seq![Reply::Found(Ok(()))] + none);
        replay_from_the_front(next.0, Reply::Found(Ok(())), none);
        assert(Seq::<Effect>::empty() + Seq::<Effect>::empty() =~= Seq::<Effect>::empty());
    } else {
        let missing = Reply::Found(Err(standing.missing));
        let none = Seq::<Reply>::empty();
        let tail = seq![Reply::Found(Ok(()))];
        assert(rest =~= seq![missing] + tail);
        replay_from_the_front(next.0, missing, tail);
        assert(tail =~= tail + none);
        replay_from_the_front(next.0.advance(missing).0, Reply::Found(Ok(())), none);
        let made = standing.keep_effects(false, commit);
        assert(Seq::<Effect>::empty() + (Seq::<Effect>::empty() + (made + Seq::<Effect>::empty()))
            =~= made);
    }
}

/// What becomes of a pass after one candidate.
proof fn lemma_candidate(ledger: Ledger, scan: Scan, standing: Standing)
    requires
        local_refs(standing.records) is Ok,
        standing.is_due(scan.pass.pattern, scan.current) ==> standing.is_bare(scan.current.commit),
    ensures
        ({
            let pattern = scan.pass.pattern;
            let dry_run = ledger.options.dry_run;
            let noted = if standing.is_due(pattern, scan.current) {
                Ledger {
                    plan: ledger.plan.push(keeping_plan(pattern, scan.current.commit)),
                    ..ledger
                }
            } else {
                ledger
            };
            let made = if standing.is_due(pattern, scan.current) {
                standing.keep_effects(dry_run, scan.current.commit)
            } else {
                Seq::empty()
            };
            let next = noted.scan(scan.pass, scan.rest, Seq::empty());
            replay(
                ledger.at(Stage::Candidate(scan)),
                standing.replies(dry_run, pattern, scan.current),
            ) == (next.0, made + next.1)
        }),
{
    let pattern = scan.pass.pattern;
    let dry_run = ledger.options.dry_run;
    let commit = scan.current.commit;
    let run = ledger.at(Stage::Candidate(scan));
    let asked = Reply::Answer(Ok((standing.descends)(scan.current.commit, scan.current.canonical)));
    let none = Seq::<Reply>::empty();
    if standing.is_due(pattern, scan.current) {
        let noted = Ledger { plan: ledger.plan.push(keeping_plan(pattern, commit)), ..ledger };
        let heads = movable(standing.refs(), commit);
        let opening = seq![asked] + standing.keep_replies(dry_run, commit);
        let listing = Reply::Refs(Ok(standing.records));
        let answers = standing.answers(heads, commit);
        let closing = seq![listing] + answers;
        assert(standing.replies(dry_run, pattern, scan.current) =~= opening + closing);
        lemma_kept(ledger, scan, standing);
        replay_in_parts(run, opening, closing);
        let looking = noted.at(Stage::Branches(scan));
        replay_from_the_front(looking, listing, answers);
        let first = noted.sweep(scan, heads, Seq::empty());
        assert(looking.advance(listing) == first);
        lemma_sweep(noted, scan, heads, standing);
    } else {
        assert(seq![asked] =~= seq![asked] + none);
        replay_from_the_front(run, asked, none);
        let next = ledger.scan(scan.pass, scan.rest, Seq::empty());
        assert(run.advance(asked) == next);
        assert(next.1 + Seq::<Effect>::empty() =~= Seq::<Effect>::empty() + next.1);
    }
}

/// A pass moves nothing in a repository in which no branch is above a commit that the pass is
/// about: all it does is to make the branches that keep those commits, and to note them in the
/// plan. It ends as a pass that has changed no more than before.
pub proof fn settled_branches_stay(
    ledger: Ledger,
    pass: Pass,
    candidates: Seq<Candidate>,
    standing: Standing,
)
    requires
        local_refs(standing.records) is Ok,
        forall|i: int|
            0 <= i < candidates.len() && standing.is_due(pass.pattern, #[trigger] candidates[i])
                ==> standing.is_bare(candidates[i].commit),
    ensures
        ({
            let dry_run = ledger.options.dry_run;
            let first = ledger.scan(pass, candidates, Seq::empty());
            let later = replay(
                first.0,
                standing.all_replies(dry_run, pass.pattern, candidates),
            );
            let last = Ledger {
                plan: standing.plan(ledger.plan, pass.pattern, candidates),
                ..ledger
            }.scan(pass, Seq::empty(), Seq::empty());
            (later.0, first.1 + later.1) == (
                last.0,
                standing.all_effects(dry_run, pass.pattern, candidates) + last.1,
            )
        }),
    decreases candidates.len(),
{
    let dry_run = ledger.options.dry_run;
    let pattern = pass.pattern;
    let first = ledger.scan(pass, candidates, Seq::empty());
    if candidates.len() == 0 {
        assert(candidates =~= Seq::<Candidate>::empty());
        assert(first.1 + Seq::<Effect>::empty() =~= Seq::<Effect>::empty() + first.1);
    } else {
        let rest = candidates.drop_first();
        let scan = Scan { pass, current: candidates[0], rest };
        let due = standing.is_due(pattern, candidates[0]);
        let noted = if due {
            Ledger { plan: ledger.plan.push(keeping_plan(pattern, candidates[0].commit)), ..ledger }
        } else {
            ledger
        };
        let made = if due {
            standing.keep_effects(dry_run, candidates[0].commit)
        } else {
            Seq::empty()
        };
        assert forall|i: int|
            0 <= i < rest.len() && standing.is_due(pattern, #[trigger] rest[i]) implies
            standing.is_bare(rest[i].commit) by {
            assert(rest[i] == candidates[i + 1]);
        }
        lemma_candidate(ledger, scan, standing);
        settled_branches_stay(noted, pass, rest, standing);
        let front = standing.replies(dry_run, pattern, candidates[0]);
        let back = standing.all_replies(dry_run, pattern, rest);
        replay_in_parts(first.0, front, back);
        let next = noted.scan(pass, rest, Seq::empty());
        let later = replay(next.0, back);
        let effects = standing.all_effects(dry_run, pattern, rest);
        let last = Ledger { plan: standing.plan(noted.plan, pattern, rest), ..noted }.scan(
            pass,
            Seq::empty(),
            Seq::empty(),
        );
        assert(first.1 + ((made + next.1) + later.1) =~= made + (next.1 + later.1));
        assert(made + (effects + last.1) =~= standing.all_effects(dry_run, pattern, candidates)
            + last.1);
    }
}

} // verus!
