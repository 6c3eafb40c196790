//! Runs, as they are carried out.
use vstd::prelude::*;
use std::collections::VecDeque;
use crate::canonical::{duplicate_targets, select_canonicals, shared_members, CommitInfo};
use crate::laws::sifting::references_at_the_root_are_kept;
use crate::messages::{
    branching_plan_text, branching_text, cleaning_text, dirty_text, finished_text, fixpoint_text,
    invalid_root_text, keeping_plan_text, moving_plan_text, moving_tags_text, moving_text,
    no_refs_text, nothing_to_do_text, optimizing_text, plan_begins_text, plan_item_text,
    preflight_text, round_begins_text, tag_left_text, too_many_rounds_text, Pattern,
};
use crate::model;
use crate::model::{Goal, Pass, Survey};
use crate::oid::Oid;
use crate::oid_map::OidMap;
use crate::protocol::{effects_view, Effect, Outcome, Reply, Request};
use crate::refs::{
    collect_local_refs, keep_branch_text, keep_ref_text, movable_heads, refs_result_view, refs_view,
    tag_list, temporary_branch_list, temporary_branch_text, texts_view, unbranched_commits,
    walk_name_list, Failure, GitError, Ref, RefEntry, RefRecord,
};
use crate::rewrites::{tag_target, Target};
use crate::text::{trim_start, Text};
use crate::walk::{add_root, candidate_list, has_others, Candidate};

verus! {

/// The name of a set of commits, as it is given on the command line.
#[derive(Debug, PartialEq, Eq)]
pub struct Revset(pub String);

/// A name that may be given, as contracts speak of it.
pub open spec fn revset_view(revset: Option<Revset>) -> Option<Text> {
    match revset {
        Some(revset) => Some(revset.0@),
        None => None,
    }
}

/// What a run has to go by, and what it has noted so far.
struct Ledger {
    root_name: String,
    dry_run: bool,
    move_tags: bool,
    max_rounds: usize,
    root: Oid,
    initial: Vec<RefEntry>,
    depths: OidMap<usize>,
    duplicates: OidMap<Oid>,
    rewrites: OidMap<Oid>,
    plan: Vec<String>,
    round: usize,
    added: bool,
    changed: bool,
    canonicals: OidMap<Oid>,
}

impl View for Ledger {
    type V = model::Ledger;

    closed spec fn view(&self) -> model::Ledger {
        model::Ledger {
            options: model::Options {
                root_name: self.root_name@,
                dry_run: self.dry_run,
                move_tags: self.move_tags,
                max_rounds: self.max_rounds,
            },
            root: self.root,
            initial: refs_view(self.initial@),
            depths: self.depths@,
            duplicates: self.duplicates@,
            rewrites: self.rewrites@,
            plan: texts_view(self.plan@),
            round: self.round,
            added: self.added,
            changed: self.changed,
            canonicals: self.canonicals@,
        }
    }
}

/// A pass at one duplicate, with those after it.
struct Scan {
    pass: Pass,
    current: Candidate,
    rest: VecDeque<Candidate>,
}

impl View for Scan {
    type V = model::Scan;

    closed spec fn view(&self) -> model::Scan {
        model::Scan { pass: self.pass, current: self.current, rest: self.rest@ }
    }
}

/// A pass at one branch that may have to move from a duplicate, with those after it.
struct Sweep {
    scan: Scan,
    head: RefEntry,
    rest: VecDeque<RefEntry>,
}

impl View for Sweep {
    type V = model::Sweep;

    closed spec fn view(&self) -> model::Sweep {
        model::Sweep { scan: self.scan@, head: self.head@, rest: refs_view(self.rest@) }
    }
}

/// What a run is about to learn.
#[allow(inconsistent_fields)]
enum Stage {
    Worktree,
    Root,
    AllRefs,
    Descent { kept: Vec<RefEntry>, current: RefEntry, rest: VecDeque<RefEntry> },
    WalkNames(Goal),
    Walk { goal: Goal, names: Vec<String> },
    Info { survey: Survey, done: Vec<CommitInfo>, current: Oid, rest: VecDeque<Oid> },
    Depth {
        survey: Survey,
        done: Vec<CommitInfo>,
        current: Oid,
        rest: VecDeque<Oid>,
        tree: Oid,
        date: i64,
    },
    Heads { shared: Vec<Oid> },
    Branch { current: Oid, rest: VecDeque<Oid> },
    Candidate(Scan),
    KeepRef(Scan),
    KeepCommit(Scan),
    Branches(Scan),
    Descends(Sweep),
    Tip(Sweep),
    Line { sweep: Sweep, tip: Oid },
    Signature { sweep: Sweep, commits: VecDeque<Oid> },
    Copy { sweep: Sweep, parent: Oid, current: Oid, rest: VecDeque<Oid> },
    Tag { tag: RefEntry, target: Oid, rest: VecDeque<RefEntry> },
    Stuck,
    Cleanup,
    Finished(Outcome),
}

impl View for Stage {
    type V = model::Stage;

    closed spec fn view(&self) -> model::Stage {
        match *self {
            Stage::Worktree => model::Stage::Worktree,
            Stage::Root => model::Stage::Root,
            Stage::AllRefs => model::Stage::AllRefs,
            Stage::Descent { kept, current, rest } => model::Stage::Descent {
                kept: refs_view(kept@),
                current: current@,
                rest: refs_view(rest@),
            },
            Stage::WalkNames(goal) => model::Stage::WalkNames(goal),
            Stage::Walk { goal, names } => model::Stage::Walk { goal, names: texts_view(names@) },
            Stage::Info { survey, done, current, rest } => model::Stage::Info {
                survey,
                done: done@,
                current,
                rest: rest@,
            },
            Stage::Depth { survey, done, current, rest, tree, date } => model::Stage::Depth {
                survey,
                done: done@,
                current,
                rest: rest@,
                tree,
                date,
            },
            Stage::Heads { shared } => model::Stage::Heads { shared: shared@ },
            Stage::Branch { current, rest } => model::Stage::Branch { current, rest: rest@ },
            Stage::Candidate(scan) => model::Stage::Candidate(scan@),
            Stage::KeepRef(scan) => model::Stage::KeepRef(scan@),
            Stage::KeepCommit(scan) => model::Stage::KeepCommit(scan@),
            Stage::Branches(scan) => model::Stage::Branches(scan@),
            Stage::Descends(sweep) => model::Stage::Descends(sweep@),
            Stage::Tip(sweep) => model::Stage::Tip(sweep@),
            Stage::Line { sweep, tip } => model::Stage::Line { sweep: sweep@, tip },
            Stage::Signature { sweep, commits } => model::Stage::Signature {
                sweep: sweep@,
                commits: commits@,
            },
            Stage::Copy { sweep, parent, current, rest } => model::Stage::Copy {
                sweep: sweep@,
                parent,
                current,
                rest: rest@,
            },
            Stage::Tag { tag, target, rest } => model::Stage::Tag {
                tag: tag@,
                target,
                rest: refs_view(rest@),
            },
            Stage::Stuck => model::Stage::Stuck,
            Stage::Cleanup => model::Stage::Cleanup,
            Stage::Finished(outcome) => model::Stage::Finished(outcome@),
        }
    }
}

/// A run.
pub struct Session {
    ledger: Ledger,
    stage: Stage,
}

impl View for Session {
    type V = model::Run;

    closed spec fn view(&self) -> model::Run {
        model::Run { ledger: self.ledger@, stage: self.stage@ }
    }
}

/// A run after a reply, and the effects that it has on the way.
pub struct Step {
    pub session: Session,
    pub effects: Vec<Effect>,
}

impl View for Step {
    type V = (model::Run, Seq<model::Effect>);

    open spec fn view(&self) -> (model::Run, Seq<model::Effect>) {
        (self.session@, effects_view(self.effects@))
    }
}

fn no_effects() -> (effects: Vec<Effect>)
    ensures
        effects_view(effects@) == Seq::<model::Effect>::empty(),
{
    let effects: Vec<Effect> = Vec::new();
    assert(effects_view(effects@) =~= Seq::<model::Effect>::empty());
    effects
}

fn and_then(effects: Vec<Effect>, effect: Effect) -> (all: Vec<Effect>)
    ensures
        effects_view(all@) == effects_view(effects@).push(effect@),
{
    let mut all = effects;
    let ghost before = all@;
    all.push(effect);
    assert(effects_view(all@) =~= effects_view(before).push(effect@));
    all
}

fn only(effect: Effect) -> (effects: Vec<Effect>)
    ensures
        effects_view(effects@) == seq![effect@],
{
    let effects = and_then(no_effects(), effect);
    assert(effects_view(effects@) =~= seq![effect@]);
    effects
}

/// The number after `n`; it starts again at zero after the greatest.
fn next_number(n: usize) -> (next: usize)
    ensures
        next == model::succ(n),
{
    if n == usize::MAX {
        0
    } else {
        n + 1
    }
}

fn into_deque<T>(items: Vec<T>) -> (deque: VecDeque<T>)
    ensures
        deque@ == items@,
{
    let mut left = items;
    let mut deque: VecDeque<T> = VecDeque::new();
    let ghost all = items@;
    loop
        invariant
            all == items@,
            left@ + deque@ == all,
        decreases left@.len(),
    {
        let ghost left_before = left@;
        let ghost deque_before = deque@;
        match left.pop() {
            Some(item) => {
                deque.push_front(item);
                proof {
                    assert(left@ + deque@ =~= left_before + deque_before);
                }
            },
            None => {
                proof {
                    assert(deque@ =~= all);
                }
                return deque;
            },
        }
    }
}

/// Takes the first reference.
fn take_ref(refs: &mut VecDeque<RefEntry>) -> (first: Option<RefEntry>)
    ensures
        match first {
            Some(first) => {
                &&& refs_view(old(refs)@).len() > 0
                &&& first@ == refs_view(old(refs)@)[0]
                &&& refs_view(final(refs)@) == refs_view(old(refs)@).drop_first()
                &&& final(refs)@.len() < old(refs)@.len()
            },
            None => refs_view(old(refs)@).len() == 0,
        },
{
    let ghost before = refs@;
    let first = refs.pop_front();
    proof {
        if before.len() > 0 {
            assert(refs_view(refs@) =~= refs_view(before).drop_first());
        }
    }
    first
}

fn copy_texts(texts: &Vec<String>) -> (copies: Vec<String>)
    ensures
        texts_view(copies@) == texts_view(texts@),
{
    let mut copies: Vec<String> = Vec::new();
    let mut i: usize = 0;
    while i < texts.len()
        invariant
            i <= texts@.len(),
            texts_view(copies@) =~= texts_view(texts@).take(i as int),
        decreases texts@.len() - i,
    {
        let ghost before = copies@;
        copies.push(texts[i].clone());
        proof {
            assert(texts_view(copies@) =~= texts_view(before).push(texts@[i as int]@));
        }
        i += 1;
    }
    copies
}

fn is_yes(answer: &Result<bool, GitError>) -> (yes: bool)
    ensures
        yes == (crate::protocol::result_view(*answer) == Ok::<bool, Failure>(true)),
{
    match answer {
        Ok(answer) => *answer,
        Err(_) => false,
    }
}

fn list_refs(refs: Result<Vec<Result<RefRecord, GitError>>, GitError>) -> (listed: Result<
    Vec<RefEntry>,
    GitError,
>)
    ensures
        refs_result_view(listed) == (match refs {
            Ok(records) => crate::refs::local_refs(crate::refs::records_view(records@)),
            Err(error) => Err(error@),
        }),
{
    match refs {
        Ok(records) => collect_local_refs(records),
        Err(error) => Err(error),
    }
}

fn add_restore(effects: Vec<Effect>, refs: &Vec<RefEntry>, message: &str) -> (all: Vec<Effect>)
    ensures
        effects_view(all@) == effects_view(effects@) + model::restore(refs_view(refs@), message@),
{
    let ghost more = model::restore(refs_view(refs@), message@);
    let ghost before = effects_view(effects@);
    let mut all = effects;
    let mut i: usize = 0;
    proof {
        assert(before + more.take(0) =~= before);
    }
    while i < refs.len()
        invariant
            i <= refs@.len(),
            more == model::restore(refs_view(refs@), message@),
            effects_view(all@) == before + more.take(i as int),
        decreases refs@.len() - i,
    {
        all =
        and_then(
            all,
            Effect::SetRef {
                name: refs[i].name.clone(),
                target: refs[i].target,
                message: message.to_owned(),
            },
        );
        proof {
            assert(before + more.take(i + 1) =~= (before + more.take(i as int)).push(
                more[i as int],
            ));
        }
        i += 1;
    }
    proof {
        assert(more.take(i as int) =~= more);
    }
    all
}

fn add_plan(effects: Vec<Effect>, plan: &Vec<String>) -> (all: Vec<Effect>)
    ensures
        effects_view(all@) == effects_view(effects@) + model::print_plan(texts_view(plan@)),
{
    let ghost more = model::print_plan(texts_view(plan@));
    let ghost before = effects_view(effects@);
    let mut all = effects;
    let mut i: usize = 0;
    proof {
        assert(before + more.take(0) =~= before);
    }
    while i < plan.len()
        invariant
            i <= plan@.len(),
            more == model::print_plan(texts_view(plan@)),
            effects_view(all@) == before + more.take(i as int),
        decreases plan@.len() - i,
    {
        all = and_then(all, Effect::Print(plan_item_text(plan[i].as_str())));
        proof {
            assert(before + more.take(i + 1) =~= (before + more.take(i as int)).push(
                more[i as int],
            ));
        }
        i += 1;
    }
    proof {
        assert(more.take(i as int) =~= more);
    }
    all
}

fn add_left(effects: Vec<Effect>, tags: &VecDeque<RefEntry>, duplicates: &OidMap<Oid>) -> (all: Vec<
    Effect,
>)
    ensures
        effects_view(all@) == effects_view(effects@) + model::print_left(
            refs_view(tags@),
            duplicates@,
        ),
{
    let ghost refs = refs_view(tags@);
    let ghost left = |tag: Ref| duplicates@.contains_key(tag.target);
    let ghost line = |tag: Ref| model::Effect::Print(crate::messages::tag_left(tag.name));
    let ghost before = effects_view(effects@);
    let mut all = effects;
    let mut i: usize = 0;
    proof {
        reveal(Seq::filter);
        assert(before + refs.take(0).filter(left).map_values(line) =~= before);
    }
    while i < tags.len()
        invariant
            i <= tags@.len(),
            refs == refs_view(tags@),
            left == (|tag: Ref| duplicates@.contains_key(tag.target)),
            line == (|tag: Ref| model::Effect::Print(crate::messages::tag_left(tag.name))),
            effects_view(all@) == before + refs.take(i as int).filter(left).map_values(line),
        decreases tags@.len() - i,
    {
        let ghost part = refs.take(i as int).filter(left);
        proof {
            assert(refs.take(i + 1) =~= refs.take(i as int).push(refs[i as int]));
            refs.take(i as int).lemma_filter_push(refs[i as int], left);
            assert(refs[i as int] == tags@[i as int]@);
            assert(before + part.push(refs[i as int]).map_values(line) =~= (before
                + part.map_values(line)).push(line(refs[i as int])));
        }
        if duplicates.get(tags[i].target).is_some() {
            all = and_then(all, Effect::Print(tag_left_text(tags[i].name.as_str())));
            assert(left(refs[i as int]));
        }
        i += 1;
    }
    proof {
        assert(refs.take(i as int) =~= refs);
    }
    all
}

fn deletions(names: Vec<String>) -> (effects: Vec<Effect>)
    ensures
        effects_view(effects@) == model::delete_branches(texts_view(names@)),
{
    let ghost more = model::delete_branches(texts_view(names@));
    let mut effects = no_effects();
    let mut i: usize = 0;
    while i < names.len()
        invariant
            i <= names@.len(),
            more == model::delete_branches(texts_view(names@)),
            effects_view(effects@) =~= more.take(i as int),
        decreases names@.len() - i,
    {
        effects = and_then(effects, Effect::DeleteBranch { name: names[i].clone() });
        i += 1;
    }
    effects
}

impl Ledger {
    fn at(self, stage: Stage) -> (session: Session)
        ensures
            session@ == self@.at(stage@),
    {
        Session { ledger: self, stage }
    }

    fn end(self, outcome: Outcome, effects: Vec<Effect>) -> (step: Step)
        ensures
            step@ == self@.end(outcome@, effects_view(effects@)),
    {
        Step { session: self.at(Stage::Finished(outcome)), effects }
    }

    fn fail(self, error: GitError) -> (step: Step)
        ensures
            step@ == self@.fail(error@),
    {
        self.end(Outcome::Failed(error), no_effects())
    }

    fn refuse(self, reason: String) -> (step: Step)
        ensures
            step@ == self@.refuse(reason@),
    {
        self.end(Outcome::Exit(1), only(Effect::Warn(reason)))
    }

    fn note(&mut self, item: String)
        ensures
            final(self)@ == (model::Ledger { plan: old(self)@.plan.push(item@), ..old(self)@ }),
    {
        let ghost before = self.plan@;
        self.plan.push(item);
        proof {
            assert(texts_view(self.plan@) =~= texts_view(before).push(item@));
        }
    }

    fn sift(self, kept: Vec<RefEntry>, refs: VecDeque<RefEntry>) -> (step: Step)
        ensures
            step@ == self@.sift(refs_view(kept@), refs_view(refs@)),
    {
        let mut above = kept;
        let mut rest = refs;
        loop
            invariant
                self@.sift(refs_view(above@), refs_view(rest@)) == self@.sift(
                    refs_view(kept@),
                    refs_view(refs@),
                ),
            decreases rest@.len(),
        {
            let ghost kept_before = refs_view(above@);
            let ghost rest_before = refs_view(rest@);
            match take_ref(&mut rest) {
                None => {
                    proof {
                        assert(kept_before + rest_before =~= kept_before);
                    }
                    return self.sifted(above);
                },
                Some(first) => {
                    if first.target == self.root {
                        above.push(first);
                        proof {
                            assert(refs_view(above@) =~= kept_before.push(rest_before[0]));
                            references_at_the_root_are_kept(self@, kept_before, rest_before);
                        }
                    } else {
                        proof {
                            assert(kept_before + rest_before.take(0) =~= kept_before);
                            assert(rest_before.skip(1) =~= rest_before.drop_first());
                        }
                        let stage = Stage::Descent { kept: above, current: first, rest };
                        return Step { session: self.at(stage), effects: no_effects() };
                    }
                },
            }
        }
    }

    fn sifted(self, kept: Vec<RefEntry>) -> (step: Step)
        ensures
            step@ == self@.sifted(refs_view(kept@)),
    {
        if kept.len() == 0 {
            let reason = no_refs_text(self.root_name.as_str(), &self.root);
            self.refuse(reason)
        } else {
            let line = optimizing_text(self.root_name.as_str(), &self.root);
            let ledger = Ledger { initial: kept, ..self };
            Step {
                session: ledger.at(Stage::WalkNames(Goal::Initial)),
                effects: only(Effect::Print(line)),
            }
        }
    }

    fn walked(self, goal: Goal, commits: Vec<Oid>) -> (step: Step)
        ensures
            step@ == self@.walked(goal, commits@),
    {
        match goal {
            Goal::Initial => self.survey(Survey::Initial, Vec::new(), into_deque(commits)),
            Goal::Round => {
                if has_others(&commits, self.root) {
                    Step {
                        session: self.at(Stage::WalkNames(Goal::Canonicals)),
                        effects: no_effects(),
                    }
                } else {
                    self.tags(only(Effect::Print(nothing_to_do_text())))
                }
            },
            Goal::Canonicals => self.survey(Survey::Round, Vec::new(), into_deque(commits)),
            Goal::Pass(pass) => {
                let found = candidate_list(&commits, &self.canonicals, self.root);
                self.scan(pass, found, no_effects())
            },
        }
    }

    fn survey(self, survey: Survey, done: Vec<CommitInfo>, commits: VecDeque<Oid>) -> (step: Step)
        ensures
            step@ == self@.survey(survey, done@, commits@),
    {
        let mut rest = commits;
        match rest.pop_front() {
            Some(current) => Step {
                session: self.at(Stage::Info { survey, done, current, rest }),
                effects: no_effects(),
            },
            None => self.surveyed(survey, done),
        }
    }

    fn read(
        self,
        survey: Survey,
        done: Vec<CommitInfo>,
        current: Oid,
        rest: VecDeque<Oid>,
        tree: Oid,
        date: i64,
    ) -> (step: Step)
        ensures
            step@ == self@.read(survey, done@, current, rest@, tree, date),
    {
        if current == self.root {
            let mut done = done;
            done.push(CommitInfo { tree_id: tree, depth: 0, cdate: date, oid: current });
            self.survey(survey, done, rest)
        } else {
            match self.depths.get(current) {
                Some(depth) => {
                    let mut done = done;
                    done.push(CommitInfo { tree_id: tree, depth, cdate: date, oid: current });
                    self.survey(survey, done, rest)
                },
                None => Step {
                    session: self.at(Stage::Depth { survey, done, current, rest, tree, date }),
                    effects: no_effects(),
                },
            }
        }
    }

    fn counted(
        self,
        survey: Survey,
        done: Vec<CommitInfo>,
        current: Oid,
        rest: VecDeque<Oid>,
        tree: Oid,
        date: i64,
        depth: usize,
    ) -> (step: Step)
        ensures
            step@ == self@.counted(survey, done@, current, rest@, tree, date, depth),
    {
        let mut ledger = self;
        ledger.depths.insert(current, depth);
        let mut done = done;
        done.push(CommitInfo { tree_id: tree, depth, cdate: date, oid: current });
        ledger.survey(survey, done, rest)
    }

    fn surveyed(self, survey: Survey, done: Vec<CommitInfo>) -> (step: Step)
        ensures
            step@ == self@.surveyed(survey, done@),
    {
        let (canonicals, grouped) = select_canonicals(&done);
        match survey {
            Survey::Initial => {
                let ledger = Ledger { duplicates: duplicate_targets(&done, &canonicals), ..self };
                ledger.begin_round(no_effects())
            },
            Survey::Round => {
                let shared = shared_members(&grouped);
                let ledger = Ledger { canonicals, ..self };
                Step { session: ledger.at(Stage::Heads { shared }), effects: no_effects() }
            },
        }
    }

    fn begin_round(self, effects: Vec<Effect>) -> (step: Step)
        ensures
            step@ == self@.begin_round(effects_view(effects@)),
    {
        let round: usize = next_number(self.round);
        let ledger = Ledger { round, added: false, changed: false, ..self };
        let limit: usize = ledger.max_rounds;
        let said = and_then(effects, Effect::Print(round_begins_text(round)));
        if limit > 0 && round > limit {
            let warned = and_then(said, Effect::Warn(too_many_rounds_text(limit)));
            let all = if ledger.dry_run {
                warned
            } else {
                add_restore(warned, &ledger.initial, "rollback")
            };
            ledger.end(Outcome::Exit(1), all)
        } else {
            Step { session: ledger.at(Stage::WalkNames(Goal::Round)), effects: said }
        }
    }

    fn branch(self, missing: VecDeque<Oid>, effects: Vec<Effect>) -> (step: Step)
        ensures
            step@ == self@.branch(missing@, effects_view(effects@)),
    {
        let mut rest = missing;
        if self.dry_run {
            self.plan_branches(rest, effects)
        } else {
            match rest.pop_front() {
                Some(current) => Step {
                    session: self.at(Stage::Branch { current, rest }),
                    effects: and_then(effects, Effect::Print(branching_text(&current))),
                },
                None => self.begin_pass(Pattern::Rebase, 0, effects),
            }
        }
    }

    fn plan_branches(self, missing: VecDeque<Oid>, effects: Vec<Effect>) -> (step: Step)
        requires
            self@.options.dry_run,
        ensures
            step@ == self@.branch(missing@, effects_view(effects@)),
    {
        let ghost lines = model::print_branching(missing@);
        let ghost items = missing@.map_values(|commit: Oid| crate::messages::branching_plan(commit));
        let ghost before = effects_view(effects@);
        let ghost noted = self@;
        let mut ledger = self;
        let mut all = effects;
        let mut i: usize = 0;
        proof {
            assert(before + lines.take(0) =~= before);
            assert(noted.plan + items.take(0) =~= noted.plan);
        }
        while i < missing.len()
            invariant
                i <= missing@.len(),
                lines == model::print_branching(missing@),
                items == missing@.map_values(
                    |commit: Oid| crate::messages::branching_plan(commit),
                ),
                effects_view(all@) == before + lines.take(i as int),
                ledger@ == (model::Ledger { plan: noted.plan + items.take(i as int), ..noted }),
            decreases missing@.len() - i,
        {
            all = and_then(all, Effect::Print(branching_text(&missing[i])));
            ledger.note(branching_plan_text(&missing[i]));
            proof {
                assert(before + lines.take(i + 1) =~= (before + lines.take(i as int)).push(
                    lines[i as int],
                ));
                assert(noted.plan + items.take(i + 1) =~= (noted.plan + items.take(i as int)).push(
                    items[i as int],
                ));
            }
            i += 1;
        }
        proof {
            assert(lines.take(i as int) =~= lines);
            assert(items.take(i as int) =~= items);
        }
        ledger.begin_pass(Pattern::Rebase, 0, all)
    }

    fn begin_pass(self, pattern: Pattern, number: usize, effects: Vec<Effect>) -> (step: Step)
        ensures
            step@ == self@.begin_pass(pattern, number, effects_view(effects@)),
    {
        let pass = Pass { pattern, number: next_number(number), changed: false };
        Step { session: self.at(Stage::WalkNames(Goal::Pass(pass))), effects }
    }

    fn scan(self, pass: Pass, candidates: VecDeque<Candidate>, effects: Vec<Effect>) -> (step: Step)
        ensures
            step@ == self@.scan(pass, candidates@, effects_view(effects@)),
    {
        let mut rest = candidates;
        match rest.pop_front() {
            Some(current) => Step {
                session: self.at(Stage::Candidate(Scan { pass, current, rest })),
                effects,
            },
            None => {
                if pass.changed {
                    self.begin_pass(pass.pattern, pass.number, effects)
                } else {
                    match pass.pattern {
                        Pattern::Rebase => self.begin_pass(Pattern::Shallow, 0, effects),
                        Pattern::Shallow => self.end_round(effects),
                    }
                }
            },
        }
    }

    fn end_round(self, effects: Vec<Effect>) -> (step: Step)
        ensures
            step@ == self@.end_round(effects_view(effects@)),
    {
        if !self.changed && !self.added {
            let line = fixpoint_text(self.round);
            self.tags(and_then(effects, Effect::Print(line)))
        } else {
            self.begin_round(effects)
        }
    }

    fn kept(self, scan: Scan, effects: Vec<Effect>) -> (step: Step)
        ensures
            step@ == self@.kept(scan@, effects_view(effects@)),
    {
        let mut ledger = self;
        ledger.note(keeping_plan_text(scan.pass.pattern, &scan.current.commit));
        Step { session: ledger.at(Stage::Branches(scan)), effects }
    }

    fn sweep(self, scan: Scan, heads: VecDeque<RefEntry>, effects: Vec<Effect>) -> (step: Step)
        ensures
            step@ == self@.sweep(scan@, refs_view(heads@), effects_view(effects@)),
    {
        let mut rest = heads;
        match take_ref(&mut rest) {
            Some(head) => Step {
                session: self.at(Stage::Descends(Sweep { scan, head, rest })),
                effects,
            },
            None => self.scan(scan.pass, scan.rest, effects),
        }
    }

    fn relocate(self, sweep: Sweep) -> (step: Step)
        ensures
            step@ == self@.relocate(sweep@),
    {
        let mut ledger = self;
        let pass = sweep.scan.pass;
        let spot = sweep.scan.current;
        let line = moving_text(
            pass.pattern,
            ledger.round,
            pass.number,
            sweep.head.name.as_str(),
            &spot.canonical,
        );
        ledger.note(
            moving_plan_text(
                pass.pattern,
                sweep.head.name.as_str(),
                &spot.canonical,
                &spot.commit,
            ),
        );
        let effects = only(Effect::Print(line));
        if ledger.dry_run {
            ledger.sweep(sweep.scan, sweep.rest, effects)
        } else {
            Step { session: ledger.at(Stage::Tip(sweep)), effects }
        }
    }

    fn copy(self, sweep: Sweep, parent: Oid, commits: VecDeque<Oid>) -> (step: Step)
        ensures
            step@ == self@.copy(sweep@, parent, commits@),
    {
        let mut rest = commits;
        match rest.pop_front() {
            Some(current) => Step {
                session: self.at(Stage::Copy { sweep, parent, current, rest }),
                effects: no_effects(),
            },
            None => {
                let moved = Effect::SetRef {
                    name: sweep.head.name.clone(),
                    target: parent,
                    message: "rebase_branch_onto".to_owned(),
                };
                self.relocated(sweep, only(moved))
            },
        }
    }

    fn relocated(self, sweep: Sweep, effects: Vec<Effect>) -> (step: Step)
        ensures
            step@ == self@.relocated(sweep@, effects_view(effects@)),
    {
        let old_pass = sweep.scan.pass;
        let pass = Pass { pattern: old_pass.pattern, number: old_pass.number, changed: true };
        let scan = Scan { pass, current: sweep.scan.current, rest: sweep.scan.rest };
        let ledger = Ledger { changed: true, ..self };
        ledger.sweep(scan, sweep.rest, effects)
    }

    fn tags(self, effects: Vec<Effect>) -> (step: Step)
        ensures
            step@ == self@.tags(effects_view(effects@)),
    {
        if self.dry_run {
            let begun = and_then(effects, Effect::Print(plan_begins_text()));
            let planned = add_plan(begun, &self.plan);
            let restored = add_restore(planned, &self.initial, "rollback_dry_run");
            let ghost almost = effects_view(restored@);
            let all = and_then(restored, Effect::Print(finished_text()));
            proof {
                let last = model::Effect::Print(crate::messages::finished());
                assert(almost.push(last) =~= almost + seq![last]);
            }
            self.end(Outcome::Success, all)
        } else {
            let tags = tag_list(&self.initial);
            if self.move_tags {
                self.tag(tags, and_then(effects, Effect::Print(moving_tags_text())))
            } else {
                let all = add_left(effects, &tags, &self.duplicates);
                self.clean(all)
            }
        }
    }

    fn tag(self, tags: VecDeque<RefEntry>, effects: Vec<Effect>) -> (step: Step)
        ensures
            step@ == self@.tag(refs_view(tags@), effects_view(effects@)),
    {
        let mut rest = tags;
        loop
            invariant
                self@.tag(refs_view(rest@), effects_view(effects@)) == self@.tag(
                    refs_view(tags@),
                    effects_view(effects@),
                ),
            decreases rest@.len(),
        {
            match take_ref(&mut rest) {
                None => {
                    return self.clean(effects);
                },
                Some(tag) => match tag_target(&self.rewrites, &self.duplicates, tag.target) {
                    Target::Endless => {
                        return Step { session: self.at(Stage::Stuck), effects };
                    },
                    Target::Moves(target) => {
                        return Step { session: self.at(Stage::Tag { tag, target, rest }), effects };
                    },
                    Target::Stays => {},
                },
            }
        }
    }

    fn clean(self, effects: Vec<Effect>) -> (step: Step)
        ensures
            step@ == self@.clean(effects_view(effects@)),
    {
        Step {
            session: self.at(Stage::Cleanup),
            effects: and_then(effects, Effect::Print(cleaning_text())),
        }
    }
}

/// Begins a run that optimizes the history above a commit: above `root`, or else above `base`, or
/// else above the current commit. Whoever carries it out performs the effects of each step, in
/// order, then what the session asks for, and hands the reply to the session, until it has ended.
pub fn optimize_history(
    base: Option<Revset>,
    root: Option<Revset>,
    dry_run: bool,
    move_tags: bool,
    max_rounds: Option<usize>,
) -> (step: Step)
    ensures
        step.session@ == model::start(
            model::options(
                revset_view(base),
                revset_view(root),
                dry_run,
                move_tags,
                max_rounds,
            ),
            step.session@.ledger.root,
        ),
        effects_view(step.effects@) == model::first_effects(),
        step.session@.request() == model::Request::Statuses,
        root matches Some(name) ==> step.session@.ledger.options.root_name == name.0@,
        root is None ==> (base matches Some(name) ==> step.session@.ledger.options.root_name
            == name.0@),
        root is None && base is None ==> step.session@.ledger.options.root_name == "HEAD"@,
        step.session@.ledger.options.dry_run == dry_run,
        step.session@.ledger.options.move_tags == move_tags,
        max_rounds matches Some(limit) ==> step.session@.ledger.options.max_rounds == limit,
        max_rounds is None ==> step.session@.ledger.options.max_rounds == 0,
{
    let root_name = match root {
        Some(name) => name.0,
        None => match base {
            Some(name) => name.0,
            None => "HEAD".to_owned(),
        },
    };
    let limit: usize = match max_rounds {
        Some(limit) => limit,
        None => 0,
    };
    let ledger = Ledger {
        root_name,
        dry_run,
        move_tags,
        max_rounds: limit,
        root: Oid { bytes: [0; 20] },
        initial: Vec::new(),
        depths: OidMap::new(),
        duplicates: OidMap::new(),
        rewrites: OidMap::new(),
        plan: Vec::new(),
        round: 0,
        added: false,
        changed: false,
        canonicals: OidMap::new(),
    };
    proof {
        assert(ledger@.initial =~= Seq::<Ref>::empty());
        assert(ledger@.plan =~= Seq::<Text>::empty());
    }
    Step {
        session: ledger.at(Stage::Worktree),
        effects: only(Effect::Print(preflight_text())),
    }
}

impl Session {
    /// What the run waits for.
    pub fn request(&self) -> (request: Request)
        ensures
            request@ == self@.request(),
    {
        let root = self.ledger.root;
        match &self.stage {
            Stage::Worktree => Request::Statuses,
            Stage::Root => Request::ResolveCommit(self.ledger.root_name.clone()),
            Stage::AllRefs => Request::ListRefs,
            Stage::Descent { current, .. } => Request::Descendant {
                commit: current.target,
                ancestor: root,
            },
            Stage::WalkNames(_) => Request::ListRefs,
            Stage::Walk { names, .. } => Request::WalkRefs { names: copy_texts(names), hide: root },
            Stage::Info { current, .. } => Request::ReadCommit(*current),
            Stage::Depth { current, .. } => Request::CountCommits { from: *current, hide: root },
            Stage::Heads { .. } => Request::ListRefs,
            Stage::Branch { current, .. } => Request::FindCommit(*current),
            Stage::Candidate(scan) => Request::Descendant {
                commit: scan.current.commit,
                ancestor: scan.current.canonical,
            },
            Stage::KeepRef(scan) => Request::FindRef(keep_ref_text(&scan.current.commit)),
            Stage::KeepCommit(scan) => Request::FindCommit(scan.current.commit),
            Stage::Branches(_) => Request::ListRefs,
            Stage::Descends(sweep) => Request::Descendant {
                commit: sweep.head.target,
                ancestor: sweep.scan.current.commit,
            },
            Stage::Tip(sweep) => Request::PeelRef(sweep.head.name.clone()),
            Stage::Line { sweep, tip } => Request::WalkCommits {
                from: *tip,
                hide: sweep.scan.current.commit,
            },
            Stage::Signature { .. } => Request::TakeSignature,
            Stage::Copy { parent, current, .. } => Request::CopyCommit {
                source: *current,
                parent: *parent,
            },
            Stage::Tag { target, .. } => Request::FindObject(*target),
            Stage::Stuck => Request::Nothing,
            Stage::Cleanup => Request::ListRefs,
            Stage::Finished(outcome) => Request::Finished(outcome.copy()),
        }
    }

    /// Takes the reply to what the run waits for. A reply of another kind changes nothing.
    pub fn advance(self, reply: Reply) -> (step: Step)
        ensures
            step@ == self@.advance(reply@),
    {
        let Session { ledger, stage } = self;
        match stage {
            Stage::Worktree | Stage::Root | Stage::AllRefs | Stage::Descent { .. } => {
                ledger.checked(stage, reply)
            },
            Stage::WalkNames(_) | Stage::Walk { .. } | Stage::Info { .. } | Stage::Depth { .. } => {
                ledger.explored(stage, reply)
            },
            Stage::Heads { .. } | Stage::Branch { .. } => ledger.branched(stage, reply),
            Stage::Candidate(_)
            | Stage::KeepRef(_)
            | Stage::KeepCommit(_)
            | Stage::Branches(_)
            | Stage::Descends(_) => ledger.passed(stage, reply),
            Stage::Tip(_) | Stage::Line { .. } | Stage::Signature { .. } | Stage::Copy { .. } => {
                ledger.moved(stage, reply)
            },
            Stage::Tag { .. } | Stage::Cleanup => ledger.closed(stage, reply),
            Stage::Stuck | Stage::Finished(_) => Step {
                session: ledger.at(stage),
                effects: no_effects(),
            },
        }
    }
}

impl Ledger {
    /// A reply about the checks with which a run begins.
    fn checked(self, stage: Stage, reply: Reply) -> (step: Step)
        requires
            stage@ is Worktree || stage@ is Root || stage@ is AllRefs || stage@ is Descent,
        ensures
            step@ == self@.at(stage@).advance(reply@),
    {
        let ledger = self;
        match (stage, reply) {
            (Stage::Worktree, Reply::Count(count)) => match count {
                Ok(entries) => if entries > 0 {
                    ledger.refuse(dirty_text())
                } else {
                    Step { session: ledger.at(Stage::Root), effects: no_effects() }
                },
                Err(error) => ledger.fail(error),
            },
            (Stage::Root, Reply::Commit(commit)) => match commit {
                Ok(root) => {
                    let found = Ledger { root, ..ledger };
                    Step { session: found.at(Stage::AllRefs), effects: no_effects() }
                },
                Err(_) => {
                    let reason = invalid_root_text(ledger.root_name.as_str());
                    ledger.refuse(reason)
                },
            },
            (Stage::AllRefs, Reply::Refs(refs)) => match list_refs(refs) {
                Ok(refs) => {
                    let kept: Vec<RefEntry> = Vec::new();
                    assert(refs_view(kept@) =~= Seq::<Ref>::empty());
                    ledger.sift(kept, into_deque(refs))
                },
                Err(error) => ledger.fail(error),
            },
            (Stage::Descent { kept, current, rest }, Reply::Answer(answer)) => {
                let mut above = kept;
                if is_yes(&answer) {
                    above.push(current);
                    assert(refs_view(above@) =~= refs_view(kept@).push(current@));
                }
                ledger.sift(above, rest)
            },
            (stage, _) => Step { session: ledger.at(stage), effects: no_effects() },
        }
    }

    /// A reply about the commits of a walk.
    fn explored(self, stage: Stage, reply: Reply) -> (step: Step)
        requires
            stage@ is WalkNames || stage@ is Walk || stage@ is Info || stage@ is Depth,
        ensures
            step@ == self@.at(stage@).advance(reply@),
    {
        let ledger = self;
        match (stage, reply) {
            (Stage::WalkNames(goal), Reply::Refs(refs)) => match list_refs(refs) {
                Ok(refs) => if refs.len() == 0 {
                    ledger.walked(goal, Vec::new())
                } else {
                    let names = walk_name_list(&refs);
                    Step { session: ledger.at(Stage::Walk { goal, names }), effects: no_effects() }
                },
                Err(error) => ledger.fail(error),
            },
            (Stage::Walk { goal, .. }, Reply::Commits(commits)) => match commits {
                Ok(commits) => {
                    let root = ledger.root;
                    ledger.walked(goal, add_root(commits, root))
                },
                Err(error) => ledger.fail(error),
            },
            (Stage::Info { survey, done, current, rest }, Reply::TreeAndDate(read)) => match read {
                Ok((tree, date)) => ledger.read(survey, done, current, rest, tree, date),
                Err(error) => ledger.fail(error),
            },
            (
                Stage::Depth { survey, done, current, rest, tree, date },
                Reply::Count(count),
            ) => match count {
                Ok(depth) => ledger.counted(survey, done, current, rest, tree, date, depth),
                Err(error) => ledger.fail(error),
            },
            (stage, _) => Step { session: ledger.at(stage), effects: no_effects() },
        }
    }

    /// A reply about the duplicates that lack a branch.
    fn branched(self, stage: Stage, reply: Reply) -> (step: Step)
        requires
            stage@ is Heads || stage@ is Branch,
        ensures
            step@ == self@.at(stage@).advance(reply@),
    {
        let ledger = self;
        match (stage, reply) {
            (Stage::Heads { shared }, Reply::Refs(refs)) => match list_refs(refs) {
                Ok(refs) => {
                    let missing = unbranched_commits(&shared, &refs, ledger.root);
                    ledger.branch(missing, no_effects())
                },
                Err(error) => ledger.fail(error),
            },
            (Stage::Branch { current, rest }, Reply::Found(found)) => match found {
                Ok(_) => {
                    let mut noted = ledger;
                    noted.note(branching_plan_text(&current));
                    noted.added = true;
                    noted.branch(
                        rest,
                        only(
                            Effect::CreateBranch {
                                name: temporary_branch_text(&current),
                                target: current,
                            },
                        ),
                    )
                },
                Err(error) => ledger.fail(error),
            },
            (stage, _) => Step { session: ledger.at(stage), effects: no_effects() },
        }
    }

    /// A reply about a duplicate at which a pass is.
    fn passed(self, stage: Stage, reply: Reply) -> (step: Step)
        requires
            stage@ is Candidate || stage@ is KeepRef || stage@ is KeepCommit
                || stage@ is Branches || stage@ is Descends,
        ensures
            step@ == self@.at(stage@).advance(reply@),
    {
        let ledger = self;
        match (stage, reply) {
            (Stage::Candidate(scan), Reply::Answer(answer)) => {
                let shallow = match scan.pass.pattern {
                    Pattern::Rebase => false,
                    Pattern::Shallow => true,
                };
                if is_yes(&answer) == shallow {
                    if ledger.dry_run {
                        ledger.kept(scan, no_effects())
                    } else {
                        Step { session: ledger.at(Stage::KeepRef(scan)), effects: no_effects() }
                    }
                } else {
                    ledger.scan(scan.pass, scan.rest, no_effects())
                }
            },
            (Stage::KeepRef(scan), Reply::Found(found)) => match found {
                Ok(_) => ledger.kept(scan, no_effects()),
                Err(_) => Step {
                    session: ledger.at(Stage::KeepCommit(scan)),
                    effects: no_effects(),
                },
            },
            (Stage::KeepCommit(scan), Reply::Found(found)) => match found {
                Ok(_) => {
                    let keep = Effect::CreateBranch {
                        name: keep_branch_text(&scan.current.commit),
                        target: scan.current.commit,
                    };
                    ledger.kept(scan, only(keep))
                },
                Err(error) => ledger.fail(error),
            },
            (Stage::Branches(scan), Reply::Refs(refs)) => match list_refs(refs) {
                Ok(refs) => {
                    let heads = movable_heads(&refs, scan.current.commit);
                    ledger.sweep(scan, heads, no_effects())
                },
                Err(error) => ledger.fail(error),
            },
            (Stage::Descends(sweep), Reply::Answer(answer)) => if is_yes(&answer) {
                ledger.relocate(sweep)
            } else {
                ledger.sweep(sweep.scan, sweep.rest, no_effects())
            },
            (stage, _) => Step { session: ledger.at(stage), effects: no_effects() },
        }
    }

    /// A reply about a branch that is moved.
    fn moved(self, stage: Stage, reply: Reply) -> (step: Step)
        requires
            stage@ is Tip || stage@ is Line || stage@ is Signature || stage@ is Copy,
        ensures
            step@ == self@.at(stage@).advance(reply@),
    {
        let ledger = self;
        match (stage, reply) {
            (Stage::Tip(sweep), Reply::Commit(commit)) => match commit {
                Ok(tip) => Step {
                    session: ledger.at(Stage::Line { sweep, tip }),
                    effects: no_effects(),
                },
                Err(_) => ledger.relocated(sweep, no_effects()),
            },
            (Stage::Line { sweep, .. }, Reply::Commits(commits)) => match commits {
                Ok(commits) => Step {
                    session: ledger.at(Stage::Signature { sweep, commits: into_deque(commits) }),
                    effects: no_effects(),
                },
                Err(_) => ledger.relocated(sweep, no_effects()),
            },
            (Stage::Signature { sweep, commits }, Reply::Found(found)) => match found {
                Ok(_) => {
                    let parent = sweep.scan.current.canonical;
                    ledger.copy(sweep, parent, commits)
                },
                Err(_) => ledger.relocated(sweep, no_effects()),
            },
            (Stage::Copy { sweep, current, rest, .. }, Reply::Commit(commit)) => match commit {
                Ok(copied) => {
                    let mut noted = ledger;
                    noted.rewrites.insert(current, copied);
                    noted.copy(sweep, copied, rest)
                },
                Err(_) => ledger.relocated(sweep, no_effects()),
            },
            (stage, _) => Step { session: ledger.at(stage), effects: no_effects() },
        }
    }

    /// A reply after the rounds.
    fn closed(self, stage: Stage, reply: Reply) -> (step: Step)
        requires
            stage@ is Tag || stage@ is Cleanup,
        ensures
            step@ == self@.at(stage@).advance(reply@),
    {
        let ledger = self;
        match (stage, reply) {
            (Stage::Tag { tag, target, rest }, Reply::Found(found)) => match found {
                Ok(_) => {
                    let name = trim_start(tag.name.as_str(), "refs/tags/");
                    ledger.tag(rest, only(Effect::SetTag { name, target }))
                },
                Err(error) => ledger.fail(error),
            },
            (Stage::Cleanup, Reply::Refs(refs)) => {
                let names = match refs {
                    Ok(records) => temporary_branch_list(&records),
                    Err(_) => {
                        let none: Vec<String> = Vec::new();
                        assert(texts_view(none@) =~= Seq::<Text>::empty());
                        none
                    },
                };
                let deleted = deletions(names);
                let ghost almost = effects_view(deleted@);
                let all = and_then(deleted, Effect::Print(finished_text()));
                proof {
                    let last = model::Effect::Print(crate::messages::finished());
                    assert(almost.push(last) =~= almost + seq![last]);
                }
                ledger.end(Outcome::Success, all)
            },
            (stage, _) => Step { session: ledger.at(stage), effects: no_effects() },
        }
    }
}

} // verus!
