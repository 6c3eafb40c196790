//! The run as a state machine, in the terms in which contracts speak of it.
//!
//! A run waits for the answer to one request at a time. Each answer takes it to its next state and
//! gives the effects that it has on the way, in order.
use vstd::prelude::*;
use crate::canonical::{canonicals, duplicates, groups, shared_of, CommitInfo};
use crate::messages::{
    branching, branching_plan, cleaning, dirty, finished, fixpoint, invalid_root, keeping_plan,
    moving, moving_plan, moving_tags, no_refs, nothing_to_do, optimizing, plan_begins, plan_item,
    preflight, round_begins, tag_left, too_many_rounds, Pattern,
};
use crate::oid::Oid;
use crate::refs::{
    keep_branch, keep_ref, local_refs, movable, tags_of, temporary_branch, temporary_branches,
    unbranched, walk_names, Failure, Record, Ref,
};
use crate::rewrites::{target_of, Target};
use crate::text::{trimmed, Text};
use crate::walk::{candidates, others, with_root, Candidate};

verus! {

/// What a run is asked to do.
pub struct Options {
    /// The name of the commit above which history is optimized.
    pub root_name: Text,
    /// Whether to print a plan and change nothing.
    pub dry_run: bool,
    /// Whether tags follow the commits that they stand at.
    pub move_tags: bool,
    /// How many rounds there may be; any number of them where it is zero.
    pub max_rounds: usize,
}

/// What a run does to the world without waiting for an answer.
pub enum Effect {
    /// A line on the standard output.
    Print(Text),
    /// A line on the standard error.
    Warn(Text),
    /// A new branch; an existing one is left alone.
    CreateBranch { name: Text, target: Oid },
    /// A reference that is made or overwritten, with the message for its log.
    SetRef { name: Text, target: Oid, message: Text },
    /// A lightweight tag that is made or overwritten.
    SetTag { name: Text, target: Oid },
    /// A branch that is deleted if it exists.
    DeleteBranch { name: Text },
}

/// How a run ends.
pub enum Outcome {
    Success,
    /// The run was refused, with the exit code for it.
    Exit(isize),
    /// The repository failed.
    Failed(Failure),
}

/// What a run waits for.
pub enum Request {
    /// How many entries of the worktree have changes.
    Statuses,
    /// The commit that a name stands for.
    ResolveCommit(Text),
    /// All references.
    ListRefs,
    /// Whether one commit descends from another.
    Descendant { commit: Oid, ancestor: Oid },
    /// The commits that the names reach and `hide` does not, children first.
    WalkRefs { names: Seq<Text>, hide: Oid },
    /// The tree and the date of a commit.
    ReadCommit(Oid),
    /// How many commits `from` reaches that `hide` does not.
    CountCommits { from: Oid, hide: Oid },
    /// Whether a commit exists.
    FindCommit(Oid),
    /// Whether a reference exists.
    FindRef(Text),
    /// The commit that a reference leads to.
    PeelRef(Text),
    /// The commits that `from` reaches and `hide` does not, parents first.
    WalkCommits { from: Oid, hide: Oid },
    /// The signature for the commits that are written next.
    TakeSignature,
    /// A new commit with the tree and the message of `source` on top of `parent`.
    CopyCommit { source: Oid, parent: Oid },
    /// Whether an object exists.
    FindObject(Oid),
    /// Nothing: the run cannot go on and does not end.
    Nothing,
    /// Nothing: the run has ended.
    Finished(Outcome),
}

/// What a run is told.
pub enum Reply {
    Count(Result<usize, Failure>),
    Commit(Result<Oid, Failure>),
    Refs(Result<Seq<Result<Record, Failure>>, Failure>),
    Answer(Result<bool, Failure>),
    Commits(Result<Seq<Oid>, Failure>),
    TreeAndDate(Result<(Oid, i64), Failure>),
    Found(Result<(), Failure>),
}

/// One pass over the commits: its pattern, its number among the passes with that pattern in the
/// round, and whether it has moved a branch.
#[derive(Clone, Copy, Debug)]
pub struct Pass {
    pub pattern: Pattern,
    pub number: usize,
    pub changed: bool,
}

/// What a walk over the branches is for.
#[derive(Clone, Copy, Debug)]
pub enum Goal {
    /// The commits as the run finds them.
    Initial,
    /// Whether there is anything to do in a round.
    Round,
    /// The canonical commits of a round.
    Canonicals,
    /// The duplicates that a pass looks at.
    Pass(Pass),
}

/// What commits are read for.
#[derive(Clone, Copy, Debug)]
pub enum Survey {
    /// The commits as the run finds them.
    Initial,
    /// The canonical commits of a round.
    Round,
}

/// A pass at one duplicate, with those after it.
pub struct Scan {
    pub pass: Pass,
    pub current: Candidate,
    pub rest: Seq<Candidate>,
}

/// A pass at one branch that may have to move from a duplicate, with those after it.
pub struct Sweep {
    pub scan: Scan,
    pub head: Ref,
    pub rest: Seq<Ref>,
}

/// What a run is about to learn.
#[allow(inconsistent_fields)]
pub enum Stage {
    /// Whether the worktree is clean.
    Worktree,
    /// The root commit.
    Root,
    /// The branches and tags.
    AllRefs,
    /// Whether `current` is above the root. Those in `kept` are.
    Descent { kept: Seq<Ref>, current: Ref, rest: Seq<Ref> },
    /// The branches from which a walk starts.
    WalkNames(Goal),
    /// The commits of a walk.
    Walk { goal: Goal, names: Seq<Text> },
    /// The tree and the date of `current`.
    Info { survey: Survey, done: Seq<CommitInfo>, current: Oid, rest: Seq<Oid> },
    /// The depth of `current`.
    Depth {
        survey: Survey,
        done: Seq<CommitInfo>,
        current: Oid,
        rest: Seq<Oid>,
        tree: Oid,
        date: i64,
    },
    /// The branches at the commits that share a tree with others.
    Heads { shared: Seq<Oid> },
    /// Whether the commit exists that is to get a temporary branch.
    Branch { current: Oid, rest: Seq<Oid> },
    /// Whether the duplicate descends from its canonical commit.
    Candidate(Scan),
    /// Whether there is a branch that keeps the duplicate.
    KeepRef(Scan),
    /// Whether the duplicate exists that is to be kept.
    KeepCommit(Scan),
    /// The branches that may have to move from the duplicate.
    Branches(Scan),
    /// Whether the branch descends from the duplicate.
    Descends(Sweep),
    /// The commit at which the branch stands.
    Tip(Sweep),
    /// The commits of the branch above the duplicate.
    Line { sweep: Sweep, tip: Oid },
    /// The signature for their copies.
    Signature { sweep: Sweep, commits: Seq<Oid> },
    /// The copy of `current` on top of `parent`.
    Copy { sweep: Sweep, parent: Oid, current: Oid, rest: Seq<Oid> },
    /// Whether the object exists to which the tag goes.
    Tag { tag: Ref, target: Oid, rest: Seq<Ref> },
    /// Nothing: a tag has no end to go to.
    Stuck,
    /// The temporary branches.
    Cleanup,
    /// Nothing: the run has ended.
    Finished(Outcome),
}

/// What a run has to go by, and what it has noted so far.
pub struct Ledger {
    pub options: Options,
    /// The root commit, once it is known.
    pub root: Oid,
    /// The branches and tags above the root, as the run found them.
    pub initial: Seq<Ref>,
    /// The depths that were counted.
    pub depths: Map<Oid, usize>,
    /// The commits that were duplicates when the run began, with their canonical commits.
    pub duplicates: Map<Oid, Oid>,
    /// The commits that were copied, with their copies.
    pub rewrites: Map<Oid, Oid>,
    /// What the run does or would do.
    pub plan: Seq<Text>,
    /// The number of the round.
    pub round: usize,
    /// Whether the round has made a temporary branch.
    pub added: bool,
    /// Whether the round has moved a branch.
    pub changed: bool,
    /// The canonical commits of the round.
    pub canonicals: Map<Oid, Oid>,
}

/// A run.
pub struct Run {
    pub ledger: Ledger,
    pub stage: Stage,
}

/// The number after `n`; it starts again at zero after the greatest.
pub open spec fn succ(n: usize) -> usize {
    if n == usize::MAX {
        0
    } else {
        (n + 1) as usize
    }
}

/// The branches and tags among listed references.
pub open spec fn listed(refs: Result<Seq<Result<Record, Failure>>, Failure>) -> Result<Seq<Ref>, Failure> {
    match refs {
        Ok(records) => local_refs(records),
        Err(error) => Err(error),
    }
}

/// How many of the references at the front stand at `root`.
pub open spec fn leading(refs: Seq<Ref>, root: Oid) -> int
    decreases refs.len(),
{
    if refs.len() > 0 && refs[0].target == root {
        1 + leading(refs.drop_first(), root)
    } else {
        0
    }
}

/// Sets each reference to its target.
pub open spec fn restore(refs: Seq<Ref>, message: Text) -> Seq<Effect> {
    refs.map_values(|r: Ref| Effect::SetRef { name: r.name, target: r.target, message })
}

/// Prints the plan.
pub open spec fn print_plan(plan: Seq<Text>) -> Seq<Effect> {
    plan.map_values(|item: Text| Effect::Print(plan_item(item)))
}

/// Prints what a temporary branch is made for, commit by commit.
pub open spec fn print_branching(commits: Seq<Oid>) -> Seq<Effect> {
    commits.map_values(|commit: Oid| Effect::Print(branching(commit)))
}

/// Prints the tags that stay at duplicates.
pub open spec fn print_left(tags: Seq<Ref>, duplicates: Map<Oid, Oid>) -> Seq<Effect> {
    tags.filter(|tag: Ref| duplicates.contains_key(tag.target)).map_values(
        |tag: Ref| Effect::Print(tag_left(tag.name)),
    )
}

/// Deletes branches.
pub open spec fn delete_branches(names: Seq<Text>) -> Seq<Effect> {
    names.map_values(|name: Text| Effect::DeleteBranch { name })
}

/// What a command line asks for: `root` is the root, or else `base` is, or else the current
/// commit.
pub open spec fn options(
    base: Option<Text>,
    root: Option<Text>,
    dry_run: bool,
    move_tags: bool,
    max_rounds: Option<usize>,
) -> Options {
    Options {
        root_name: match (root, base) {
            (Some(name), _) => name,
            (None, Some(name)) => name,
            (None, None) => "HEAD"@,
        },
        dry_run,
        move_tags,
        max_rounds: match max_rounds {
            Some(limit) => limit,
            None => 0,
        },
    }
}

/// A run at its start.
pub open spec fn start(options: Options, root: Oid) -> Run {
    Run {
        ledger: Ledger {
            options,
            root,
            initial: Seq::empty(),
            depths: Map::empty(),
            duplicates: Map::empty(),
            rewrites: Map::empty(),
            plan: Seq::empty(),
            round: 0,
            added: false,
            changed: false,
            canonicals: Map::empty(),
        },
        stage: Stage::Worktree,
    }
}

/// What a run prints before it asks for anything.
pub open spec fn first_effects() -> Seq<Effect> {
    seq![Effect::Print(preflight())]
}

impl Ledger {
    /// The run at a stage.
    pub open spec fn at(self, stage: Stage) -> Run {
        Run { ledger: self, stage }
    }

    /// The run has ended.
    pub open spec fn end(self, outcome: Outcome, effects: Seq<Effect>) -> (Run, Seq<Effect>) {
        (self.at(Stage::Finished(outcome)), effects)
    }

    /// The run has ended since the repository failed.
    pub open spec fn fail(self, error: Failure) -> (Run, Seq<Effect>) {
        self.end(Outcome::Failed(error), Seq::empty())
    }

    /// The run was refused for a reason that it prints.
    pub open spec fn refuse(self, reason: Text) -> (Run, Seq<Effect>) {
        self.end(Outcome::Exit(1), seq![Effect::Warn(reason)])
    }

    /// Asks which of the references are above the root. Those at the root are.
    pub open spec fn sift(self, kept: Seq<Ref>, refs: Seq<Ref>) -> (Run, Seq<Effect>) {
        let at_root = leading(refs, self.root);
        if at_root < refs.len() {
            (
                self.at(
                    Stage::Descent {
                        kept: kept + refs.take(at_root),
                        current: refs[at_root],
                        rest: refs.skip(at_root + 1),
                    },
                ),
                Seq::empty(),
            )
        } else {
            self.sifted(kept + refs)
        }
    }

    /// All references above the root are known.
    pub open spec fn sifted(self, kept: Seq<Ref>) -> (Run, Seq<Effect>) {
        if kept.len() == 0 {
            self.refuse(no_refs(self.options.root_name, self.root))
        } else {
            (
                Ledger { initial: kept, ..self }.at(Stage::WalkNames(Goal::Initial)),
                seq![Effect::Print(optimizing(self.options.root_name, self.root))],
            )
        }
    }

    /// The commits above the root are known.
    pub open spec fn walked(self, goal: Goal, commits: Seq<Oid>) -> (Run, Seq<Effect>) {
        match goal {
            Goal::Initial => self.survey(Survey::Initial, Seq::empty(), commits),
            Goal::Round => if others(commits, self.root).len() == 0 {
                self.tags(seq![Effect::Print(nothing_to_do())])
            } else {
                (self.at(Stage::WalkNames(Goal::Canonicals)), Seq::empty())
            },
            Goal::Canonicals => self.survey(Survey::Round, Seq::empty(), commits),
            Goal::Pass(pass) => self.scan(
                pass,
                candidates(commits, self.canonicals, self.root),
                Seq::empty(),
            ),
        }
    }

    /// Reads the commits one after the other.
    pub open spec fn survey(
        self,
        survey: Survey,
        done: Seq<CommitInfo>,
        commits: Seq<Oid>,
    ) -> (Run, Seq<Effect>) {
        if commits.len() > 0 {
            (
                self.at(
                    Stage::Info {
                        survey,
                        done,
                        current: commits[0],
                        rest: commits.drop_first(),
                    },
                ),
                Seq::empty(),
            )
        } else {
            self.surveyed(survey, done)
        }
    }

    /// The tree and the date of a commit are known. The root has depth zero; a depth that was
    /// counted before is not counted again.
    pub open spec fn read(
        self,
        survey: Survey,
        done: Seq<CommitInfo>,
        current: Oid,
        rest: Seq<Oid>,
        tree: Oid,
        date: i64,
    ) -> (Run, Seq<Effect>) {
        if current == self.root {
            self.survey(
                survey,
                done.push(CommitInfo { tree_id: tree, depth: 0, cdate: date, oid: current }),
                rest,
            )
        } else if self.depths.contains_key(current) {
            self.survey(
                survey,
                done.push(
                    CommitInfo {
                        tree_id: tree,
                        depth: self.depths[current],
                        cdate: date,
                        oid: current,
                    },
                ),
                rest,
            )
        } else {
            (self.at(Stage::Depth { survey, done, current, rest, tree, date }), Seq::empty())
        }
    }

    /// The depth of a commit is counted.
    pub open spec fn counted(
        self,
        survey: Survey,
        done: Seq<CommitInfo>,
        current: Oid,
        rest: Seq<Oid>,
        tree: Oid,
        date: i64,
        depth: usize,
    ) -> (Run, Seq<Effect>) {
        Ledger { depths: self.depths.insert(current, depth), ..self }.survey(
            survey,
            done.push(CommitInfo { tree_id: tree, depth, cdate: date, oid: current }),
            rest,
        )
    }

    /// All commits are read.
    pub open spec fn surveyed(self, survey: Survey, done: Seq<CommitInfo>) -> (Run, Seq<Effect>) {
        match survey {
            Survey::Initial => Ledger { duplicates: duplicates(done), ..self }.begin_round(
                Seq::empty(),
            ),
            Survey::Round => (
                Ledger { canonicals: canonicals(done), ..self }.at(
                    Stage::Heads { shared: shared_of(groups(done)) },
                ),
                Seq::empty(),
            ),
        }
    }

    /// Begins a round, unless there may be no more of them: then all references go back to where
    /// the run found them.
    pub open spec fn begin_round(self, effects: Seq<Effect>) -> (Run, Seq<Effect>) {
        let round = succ(self.round);
        let ledger = Ledger { round, added: false, changed: false, ..self };
        let limit = self.options.max_rounds;
        let said = effects.push(Effect::Print(round_begins(round)));
        if limit > 0 && round > limit {
            let warned = said.push(Effect::Warn(too_many_rounds(limit)));
            ledger.end(
                Outcome::Exit(1),
                if self.options.dry_run {
                    warned
                } else {
                    warned + restore(self.initial, "rollback"@)
                },
            )
        } else {
            (ledger.at(Stage::WalkNames(Goal::Round)), said)
        }
    }

    /// Gives temporary branches to the duplicates that have no branch.
    pub open spec fn branch(self, missing: Seq<Oid>, effects: Seq<Effect>) -> (Run, Seq<Effect>) {
        if self.options.dry_run {
            Ledger {
                plan: self.plan + missing.map_values(|commit: Oid| branching_plan(commit)),
                ..self
            }.begin_pass(Pattern::Rebase, 0, effects + print_branching(missing))
        } else if missing.len() > 0 {
            (
                self.at(Stage::Branch { current: missing[0], rest: missing.drop_first() }),
                effects.push(Effect::Print(branching(missing[0]))),
            )
        } else {
            self.begin_pass(Pattern::Rebase, 0, effects)
        }
    }

    /// Begins the pass after the pass `number` with this pattern.
    pub open spec fn begin_pass(
        self,
        pattern: Pattern,
        number: usize,
        effects: Seq<Effect>,
    ) -> (Run, Seq<Effect>) {
        let pass = Pass { pattern, number: succ(number), changed: false };
        (self.at(Stage::WalkNames(Goal::Pass(pass))), effects)
    }

    /// Goes on with the next duplicate of a pass.
    pub open spec fn scan(
        self,
        pass: Pass,
        candidates: Seq<Candidate>,
        effects: Seq<Effect>,
    ) -> (Run, Seq<Effect>) {
        if candidates.len() > 0 {
            (
                self.at(
                    Stage::Candidate(
                        Scan { pass, current: candidates[0], rest: candidates.drop_first() },
                    ),
                ),
                effects,
            )
        } else if pass.changed {
            self.begin_pass(pass.pattern, pass.number, effects)
        } else {
            match pass.pattern {
                Pattern::Rebase => self.begin_pass(Pattern::Shallow, 0, effects),
                Pattern::Shallow => self.end_round(effects),
            }
        }
    }

    /// Ends a round. There is another one if this one has changed anything.
    pub open spec fn end_round(self, effects: Seq<Effect>) -> (Run, Seq<Effect>) {
        if !self.changed && !self.added {
            self.tags(effects.push(Effect::Print(fixpoint(self.round))))
        } else {
            self.begin_round(effects)
        }
    }

    /// The duplicate is kept: looks for the branches that have to move.
    pub open spec fn kept(self, scan: Scan, effects: Seq<Effect>) -> (Run, Seq<Effect>) {
        (
            Ledger {
                plan: self.plan.push(keeping_plan(scan.pass.pattern, scan.current.commit)),
                ..self
            }.at(Stage::Branches(scan)),
            effects,
        )
    }

    /// Goes on with the next branch that may have to move.
    pub open spec fn sweep(self, scan: Scan, heads: Seq<Ref>, effects: Seq<Effect>) -> (
        Run,
        Seq<Effect>,
    ) {
        if heads.len() > 0 {
            (
                self.at(Stage::Descends(Sweep { scan, head: heads[0], rest: heads.drop_first() })),
                effects,
            )
        } else {
            self.scan(scan.pass, scan.rest, effects)
        }
    }

    /// Moves a branch from a duplicate onto its canonical commit.
    pub open spec fn relocate(self, sweep: Sweep) -> (Run, Seq<Effect>) {
        let pass = sweep.scan.pass;
        let spot = sweep.scan.current;
        let planned = Ledger {
            plan: self.plan.push(
                moving_plan(pass.pattern, sweep.head.name, spot.canonical, spot.commit),
            ),
            ..self
        };
        let effects = seq![
            Effect::Print(
                moving(pass.pattern, self.round, pass.number, sweep.head.name, spot.canonical),
            ),
        ];
        if self.options.dry_run {
            planned.sweep(sweep.scan, sweep.rest, effects)
        } else {
            (planned.at(Stage::Tip(sweep)), effects)
        }
    }

    /// Copies the commits of a branch one on top of the other, then moves the branch to the last
    /// copy.
    pub open spec fn copy(self, sweep: Sweep, parent: Oid, commits: Seq<Oid>) -> (Run, Seq<Effect>) {
        if commits.len() > 0 {
            (
                self.at(
                    Stage::Copy { sweep, parent, current: commits[0], rest: commits.drop_first() },
                ),
                Seq::empty(),
            )
        } else {
            self.relocated(
                sweep,
                seq![
                    Effect::SetRef {
                        name: sweep.head.name,
                        target: parent,
                        message: "rebase_branch_onto"@,
                    },
                ],
            )
        }
    }

    /// The branch was moved, or could not be: goes on with the next one.
    pub open spec fn relocated(self, sweep: Sweep, effects: Seq<Effect>) -> (Run, Seq<Effect>) {
        let scan = Scan { pass: Pass { changed: true, ..sweep.scan.pass }, ..sweep.scan };
        Ledger { changed: true, ..self }.sweep(scan, sweep.rest, effects)
    }

    /// The rounds are over: sees to the tags.
    pub open spec fn tags(self, effects: Seq<Effect>) -> (Run, Seq<Effect>) {
        let tags = tags_of(self.initial);
        if self.options.dry_run {
            self.end(
                Outcome::Success,
                effects.push(Effect::Print(plan_begins())) + print_plan(self.plan) + restore(
                    self.initial,
                    "rollback_dry_run"@,
                ) + seq![Effect::Print(finished())],
            )
        } else if self.options.move_tags {
            self.tag(tags, effects.push(Effect::Print(moving_tags())))
        } else {
            self.clean(effects + print_left(tags, self.duplicates))
        }
    }

    /// Goes on with the next tag that moves.
    pub open spec fn tag(self, tags: Seq<Ref>, effects: Seq<Effect>) -> (Run, Seq<Effect>)
        decreases tags.len(),
    {
        if tags.len() > 0 {
            match target_of(self.rewrites, self.duplicates, tags[0].target) {
                Target::Endless => (self.at(Stage::Stuck), effects),
                Target::Moves(target) => (
                    self.at(Stage::Tag { tag: tags[0], target, rest: tags.drop_first() }),
                    effects,
                ),
                Target::Stays => self.tag(tags.drop_first(), effects),
            }
        } else {
            self.clean(effects)
        }
    }

    /// Looks for the temporary branches.
    pub open spec fn clean(self, effects: Seq<Effect>) -> (Run, Seq<Effect>) {
        (self.at(Stage::Cleanup), effects.push(Effect::Print(cleaning())))
    }
}

impl Run {
    /// What the run waits for.
    pub open spec fn request(self) -> Request {
        match self.stage {
            Stage::Worktree => Request::Statuses,
            Stage::Root => Request::ResolveCommit(self.ledger.options.root_name),
            Stage::AllRefs => Request::ListRefs,
            Stage::Descent { current, .. } => Request::Descendant {
                commit: current.target,
                ancestor: self.ledger.root,
            },
            Stage::WalkNames(_) => Request::ListRefs,
            Stage::Walk { names, .. } => Request::WalkRefs { names, hide: self.ledger.root },
            Stage::Info { current, .. } => Request::ReadCommit(current),
            Stage::Depth { current, .. } => Request::CountCommits {
                from: current,
                hide: self.ledger.root,
            },
            Stage::Heads { .. } => Request::ListRefs,
            Stage::Branch { current, .. } => Request::FindCommit(current),
            Stage::Candidate(scan) => Request::Descendant {
                commit: scan.current.commit,
                ancestor: scan.current.canonical,
            },
            Stage::KeepRef(scan) => Request::FindRef(keep_ref(scan.current.commit)),
            Stage::KeepCommit(scan) => Request::FindCommit(scan.current.commit),
            Stage::Branches(_) => Request::ListRefs,
            Stage::Descends(sweep) => Request::Descendant {
                commit: sweep.head.target,
                ancestor: sweep.scan.current.commit,
            },
            Stage::Tip(sweep) => Request::PeelRef(sweep.head.name),
            Stage::Line { sweep, tip } => Request::WalkCommits {
                from: tip,
                hide: sweep.scan.current.commit,
            },
            Stage::Signature { .. } => Request::TakeSignature,
            Stage::Copy { parent, current, .. } => Request::CopyCommit { source: current, parent },
            Stage::Tag { target, .. } => Request::FindObject(target),
            Stage::Stuck => Request::Nothing,
            Stage::Cleanup => Request::ListRefs,
            Stage::Finished(outcome) => Request::Finished(outcome),
        }
    }

    /// What a reply makes of the run. A reply of another kind than the request changes nothing.
    pub open spec fn advance(self, reply: Reply) -> (Run, Seq<Effect>) {
        let ledger = self.ledger;
        match (self.stage, reply) {
            (Stage::Worktree, Reply::Count(count)) => match count {
                Ok(entries) => if entries > 0 {
                    ledger.refuse(dirty())
                } else {
                    (ledger.at(Stage::Root), Seq::empty())
                },
                Err(error) => ledger.fail(error),
            },
            (Stage::Root, Reply::Commit(commit)) => match commit {
                Ok(root) => (Ledger { root, ..ledger }.at(Stage::AllRefs), Seq::empty()),
                Err(_) => ledger.refuse(invalid_root(ledger.options.root_name)),
            },
            (Stage::AllRefs, Reply::Refs(refs)) => match listed(refs) {
                Ok(refs) => ledger.sift(Seq::empty(), refs),
                Err(error) => ledger.fail(error),
            },
            (Stage::Descent { kept, current, rest }, Reply::Answer(answer)) => ledger.sift(
                if answer == Ok::<bool, Failure>(true) {
                    kept.push(current)
                } else {
                    kept
                },
                rest,
            ),
            (Stage::WalkNames(goal), Reply::Refs(refs)) => match listed(refs) {
                Ok(refs) => if refs.len() == 0 {
                    ledger.walked(goal, Seq::empty())
                } else {
                    (ledger.at(Stage::Walk { goal, names: walk_names(refs) }), Seq::empty())
                },
                Err(error) => ledger.fail(error),
            },
            (Stage::Walk { goal, .. }, Reply::Commits(commits)) => match commits {
                Ok(commits) => ledger.walked(goal, with_root(commits, ledger.root)),
                Err(error) => ledger.fail(error),
            },
            (Stage::Info { survey, done, current, rest }, Reply::TreeAndDate(read)) => match read {
                Ok((tree, date)) => ledger.read(survey, done, current, rest, tree, date),
                Err(error) => ledger.fail(error),
            },
            (
                Stage::Depth { survey, done, current, rest, tree, date },
                Reply::Count(count),
            ) => match count {
                Ok(depth) => ledger.counted(survey, done, current, rest, tree, date, depth),
                Err(error) => ledger.fail(error),
            },
            (Stage::Heads { shared }, Reply::Refs(refs)) => match listed(refs) {
                Ok(refs) => ledger.branch(unbranched(shared, refs, ledger.root), Seq::empty()),
                Err(error) => ledger.fail(error),
            },
            (Stage::Branch { current, rest }, Reply::Found(found)) => match found {
                Ok(_) => Ledger {
                    added: true,
                    plan: ledger.plan.push(branching_plan(current)),
                    ..ledger
                }.branch(
                    rest,
                    seq![Effect::CreateBranch { name: temporary_branch(current), target: current }],
                ),
                Err(error) => ledger.fail(error),
            },
            (Stage::Candidate(scan), Reply::Answer(answer)) => if (answer == Ok::<bool, Failure>(true))
                == (scan.pass.pattern == Pattern::Shallow) {
                if ledger.options.dry_run {
                    ledger.kept(scan, Seq::empty())
                } else {
                    (ledger.at(Stage::KeepRef(scan)), Seq::empty())
                }
            } else {
                ledger.scan(scan.pass, scan.rest, Seq::empty())
            },
            (Stage::KeepRef(scan), Reply::Found(found)) => match found {
                Ok(_) => ledger.kept(scan, Seq::empty()),
                Err(_) => (ledger.at(Stage::KeepCommit(scan)), Seq::empty()),
            },
            (Stage::KeepCommit(scan), Reply::Found(found)) => match found {
                Ok(_) => ledger.kept(
                    scan,
                    seq![
                        Effect::CreateBranch {
                            name: keep_branch(scan.current.commit),
                            target: scan.current.commit,
                        },
                    ],
                ),
                Err(error) => ledger.fail(error),
            },
            (Stage::Branches(scan), Reply::Refs(refs)) => match listed(refs) {
                Ok(refs) => ledger.sweep(scan, movable(refs, scan.current.commit), Seq::empty()),
                Err(error) => ledger.fail(error),
            },
            (Stage::Descends(sweep), Reply::Answer(answer)) => if answer == Ok::<bool, Failure>(
                true,
            ) {
                ledger.relocate(sweep)
            } else {
                ledger.sweep(sweep.scan, sweep.rest, Seq::empty())
            },
            (Stage::Tip(sweep), Reply::Commit(commit)) => match commit {
                Ok(tip) => (ledger.at(Stage::Line { sweep, tip }), Seq::empty()),
                Err(_) => ledger.relocated(sweep, Seq::empty()),
            },
            (Stage::Line { sweep, .. }, Reply::Commits(commits)) => match commits {
                Ok(commits) => (ledger.at(Stage::Signature { sweep, commits }), Seq::empty()),
                Err(_) => ledger.relocated(sweep, Seq::empty()),
            },
            (Stage::Signature { sweep, commits }, Reply::Found(found)) => match found {
                Ok(_) => ledger.copy(sweep, sweep.scan.current.canonical, commits),
                Err(_) => ledger.relocated(sweep, Seq::empty()),
            },
            (Stage::Copy { sweep, parent, current, rest }, Reply::Commit(commit)) => match commit {
                Ok(copied) => Ledger {
                    rewrites: ledger.rewrites.insert(current, copied),
                    ..ledger
                }.copy(sweep, copied, rest),
                Err(_) => ledger.relocated(sweep, Seq::empty()),
            },
            (Stage::Tag { tag, target, rest }, Reply::Found(found)) => match found {
                Ok(_) => ledger.tag(
                    rest,
                    seq![Effect::SetTag { name: trimmed(tag.name, "refs/tags/"@), target }],
                ),
                Err(error) => ledger.fail(error),
            },
            (Stage::Cleanup, Reply::Refs(refs)) => ledger.end(
                Outcome::Success,
                delete_branches(
                    match refs {
                        Ok(records) => temporary_branches(records),
                        Err(_) => Seq::empty(),
                    },
                ) + seq![Effect::Print(finished())],
            ),
            _ => (self, Seq::empty()),
        }
    }
}

} // verus!
