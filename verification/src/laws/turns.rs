//! What comes after what: nothing that a run has before it is passed over.
use vstd::prelude::*;
use crate::laws::listing::{
    picked, selects, the_root_is_among_the_commits, walks_start_from_branches,
};
use crate::laws::naming::names_are_told_by_how_they_begin;
use crate::laws::rounds::lemma_tags_close;
use crate::laws::soundness::is_closing;
use crate::laws::wording::lines_name_commits_and_branches;
use crate::messages::{branching_plan, moving_tags, nothing_to_do, Pattern};
use crate::model::{
    print_branching, Effect, Goal, Ledger, Pass, Reply, Request, Scan, Stage, Survey, Sweep,
};
use crate::oid::{hex, Oid};
use crate::refs::{local_refs, movable, tags_of, unbranched, Failure, Record, Ref};
use crate::text::{trimmed, Text};
use crate::walk::{candidates, other_than, others, with_root, Candidate};
use crate::canonical::CommitInfo;

verus! {

/// The stage is about the next duplicate of the pass, if there is one.
pub open spec fn is_next_duplicate(scan: Scan, stage: Stage) -> bool {
    scan.rest.len() > 0 ==> {
        &&& stage matches Stage::Candidate(next)
        &&& next.current == scan.rest[0]
        &&& next.rest == scan.rest.drop_first()
    }
}

/// The stage is about the next branch for the duplicate, or, if there is none, about the next
/// duplicate of the pass, if there is one.
pub open spec fn is_next_branch(sweep: Sweep, stage: Stage) -> bool {
    if sweep.rest.len() > 0 {
        &&& stage matches Stage::Descends(next)
        &&& next.head == sweep.rest[0]
        &&& next.rest == sweep.rest.drop_first()
        &&& next.scan.current == sweep.scan.current
        &&& next.scan.rest == sweep.scan.rest
    } else {
        is_next_duplicate(sweep.scan, stage)
    }
}

/// Once the run is done with a branch, it goes on with the next one: when it has learned that the
/// branch is not above the duplicate, or would move it in a dry run; when it could not learn where
/// the branch stands, which commits it has or how to sign; when a copy could not be written; and when
/// the last copy was.
pub proof fn branches_take_turns(ledger: Ledger, sweep: Sweep, error: Failure)
    ensures
        is_next_branch(
            sweep,
            ledger.at(Stage::Descends(sweep)).advance(Reply::Answer(Ok(false))).0.stage,
        ),
        is_next_branch(
            sweep,
            ledger.at(Stage::Descends(sweep)).advance(Reply::Answer(Err(error))).0.stage,
        ),
        ledger.options.dry_run ==> is_next_branch(
            sweep,
            ledger.at(Stage::Descends(sweep)).advance(Reply::Answer(Ok(true))).0.stage,
        ),
        is_next_branch(
            sweep,
            ledger.at(Stage::Tip(sweep)).advance(Reply::Commit(Err(error))).0.stage,
        ),
{
}

/// The same of a branch whose commits the run was about to copy.
pub proof fn copied_branches_take_turns(
    ledger: Ledger,
    sweep: Sweep,
    tip: Oid,
    commits: Seq<Oid>,
    parent: Oid,
    current: Oid,
    rest: Seq<Oid>,
    copy: Oid,
    error: Failure,
)
    ensures
        is_next_branch(
            sweep,
            ledger.at(Stage::Line { sweep, tip }).advance(Reply::Commits(Err(error))).0.stage,
        ),
        is_next_branch(
            sweep,
            ledger.at(Stage::Signature { sweep, commits }).advance(
                Reply::Found(Err(error)),
            ).0.stage,
        ),
        is_next_branch(
            sweep,
            ledger.at(Stage::Copy { sweep, parent, current, rest }).advance(
                Reply::Commit(Err(error)),
            ).0.stage,
        ),
        rest.len() == 0 ==> ({
            let step = ledger.at(Stage::Copy { sweep, parent, current, rest }).advance(
                Reply::Commit(Ok(copy)),
            );
            &&& is_next_branch(sweep, step.0.stage)
            &&& step.1.len() > 0
            &&& step.1[0] == Effect::SetRef {
                name: sweep.head.name,
                target: copy,
                message: "rebase_branch_onto"@,
            }
        }),
        rest.len() > 0 ==> ({
            let step = ledger.at(Stage::Copy { sweep, parent, current, rest }).advance(
                Reply::Commit(Ok(copy)),
            );
            &&& step.0.stage == Stage::Copy {
                sweep,
                parent: copy,
                current: rest[0],
                rest: rest.drop_first(),
            }
            &&& step.1 == Seq::<Effect>::empty()
        }),
{
}

/// A branch is moved from where it stands now, by all its commits above the duplicate and onto the
/// canonical commit.
pub proof fn moves_go_step_by_step(ledger: Ledger, sweep: Sweep, tip: Oid, commits: Seq<Oid>)
    ensures
        ({
            let (spot, none) = (sweep.scan.current, Seq::<Effect>::empty());
            let asked = ledger.at(Stage::Tip(sweep));
            let found = asked.advance(Reply::Commit(Ok(tip)));
            let walked = found.0.advance(Reply::Commits(Ok(commits)));
            let signed = walked.0.advance(Reply::Found(Ok(())));
            &&& asked.request() == Request::PeelRef(sweep.head.name)
            &&& found.0.request() == Request::WalkCommits { from: tip, hide: spot.commit }
            &&& found.1 == none
            &&& walked.0.request() == Request::TakeSignature
            &&& walked.1 == none
            &&& commits.len() > 0 ==> signed.0.request() == Request::CopyCommit {
                source: commits[0],
                parent: spot.canonical,
            } && signed.1 == none
        }),
{
}

/// A pass goes on from a duplicate that it is not about to the next one. One that it is about it
/// keeps first, if the run is not dry: it looks for the branch under `gto-keep/` that is named by
/// the digits of the duplicate, and makes it at the duplicate if there is none.
pub proof fn duplicates_take_turns(
    ledger: Ledger,
    scan: Scan,
    answer: Result<bool, Failure>,
    error: Failure,
)
    ensures
        ({
            let none = Seq::<Effect>::empty();
            let commit = scan.current.commit;
            let about = (answer == Ok::<bool, Failure>(true)) == (scan.pass.pattern
                == Pattern::Shallow);
            let asked = ledger.at(Stage::Candidate(scan));
            let first = asked.advance(Reply::Answer(answer));
            let there = first.0.advance(Reply::Found(Ok(())));
            let gone = first.0.advance(Reply::Found(Err(error)));
            let made = gone.0.advance(Reply::Found(Ok(())));
            &&& asked.request() == Request::Descendant { commit, ancestor: scan.current.canonical }
            &&& !about ==> is_next_duplicate(scan, first.0.stage)
            &&& about && ledger.options.dry_run ==> first.0.stage == Stage::Branches(scan)
                && first.1 == none
            &&& about && !ledger.options.dry_run ==> {
                &&& first.0.request() == Request::FindRef(
                    "refs/heads/gto-keep/"@ + hex(commit.bytes@),
                )
                &&& first.1 == none
                &&& there.0.stage == Stage::Branches(scan)
                &&& there.1 == none
                &&& gone.0.request() == Request::FindCommit(commit)
                &&& gone.1 == none
                &&& made.0.stage == Stage::Branches(scan)
                &&& made.1 == seq![
                    Effect::CreateBranch {
                        name: "gto-keep/"@ + hex(commit.bytes@),
                        target: commit,
                    },
                ]
            }
        }),
{
    names_are_told_by_how_they_begin(Seq::empty(), scan.current.commit);
}

/// For a duplicate, a pass lists the references and asks of the branches that may have to move
/// whether they are above it, one after the other.
pub proof fn branches_are_asked_about(
    ledger: Ledger,
    scan: Scan,
    records: Seq<Result<Record, Failure>>,
)
    requires
        local_refs(records) is Ok,
    ensures
        ({
            let asked = ledger.at(Stage::Branches(scan));
            let first = asked.advance(Reply::Refs(Ok(records))).0;
            let heads = movable(local_refs(records)->Ok_0, scan.current.commit);
            &&& asked.request() == Request::ListRefs
            &&& heads.len() == 0 ==> is_next_duplicate(scan, first.stage)
            &&& heads.len() > 0 ==> {
                &&& first.stage == Stage::Descends(
                    Sweep { scan, head: heads[0], rest: heads.drop_first() },
                )
                &&& first.request() == Request::Descendant {
                    commit: heads[0].target,
                    ancestor: scan.current.commit,
                }
            }
        }),
{
}

/// A walk starts from the branches that are listed, and leaves out what the root reaches.
pub proof fn walks_leave_out_the_root(
    ledger: Ledger,
    goal: Goal,
    records: Seq<Result<Record, Failure>>,
) -> (at: Seq<int>)
    requires
        local_refs(records) is Ok,
        local_refs(records)->Ok_0.len() > 0,
    ensures
        ({
            let refs = local_refs(records)->Ok_0;
            let asked = ledger.at(Stage::WalkNames(goal));
            let next = asked.advance(Reply::Refs(Ok(records)));
            &&& asked.request() == Request::ListRefs
            &&& selects(
                refs,
                at,
                |r: Ref|
                    !"refs/heads/gto-tag-tmp/"@.is_prefix_of(r.name) && !"refs/tags/"@.is_prefix_of(
                        r.name,
                    ),
            )
            &&& next.0.request() == (Request::WalkRefs {
                names: picked(refs, at).map_values(|r: Ref| r.name),
                hide: ledger.root,
            })
            &&& next.1 == Seq::<Effect>::empty()
        }),
{
    walks_start_from_branches(local_refs(records)->Ok_0)
}

/// A round is over at once if the walk brings up no commit but the root, and the run says so first;
/// else the commits are surveyed.
pub proof fn rounds_need_commits(ledger: Ledger, names: Seq<Text>, commits: Seq<Oid>)
    ensures
        ({
            let step = ledger.at(Stage::Walk { goal: Goal::Round, names }).advance(
                Reply::Commits(Ok(commits)),
            );
            if forall|i: int| 0 <= i < commits.len() ==> #[trigger] commits[i] == ledger.root {
                &&& is_closing(step.0.stage)
                &&& step.1.len() > 0
                &&& step.1[0] == Effect::Print("No reachable commits to optimize."@)
            } else {
                &&& step.0.stage == Stage::WalkNames(Goal::Canonicals)
                &&& step.1 == Seq::<Effect>::empty()
            }
        }),
{
    let all = with_root(commits, ledger.root);
    let other = other_than(ledger.root);
    let said = seq![Effect::Print(nothing_to_do())];
    if forall|i: int| 0 <= i < commits.len() ==> #[trigger] commits[i] == ledger.root {
        assert forall|i: int| 0 <= i < all.len() implies !other(#[trigger] all[i]) by {
            if !commits.contains(ledger.root) && i > 0 {
                assert(all[i] == commits[i - 1]);
            }
        }
        all.lemma_all_neg_filter_empty(other);
        lemma_tags_close(ledger, said);
        lemma_tags_begin(ledger, said);
    } else {
        let i = choose|i: int| 0 <= i < commits.len() && #[trigger] commits[i] != ledger.root;
        let k = if commits.contains(ledger.root) {
            i
        } else {
            i + 1
        };
        assert(all[k] == commits[i]);
        all.lemma_filter_contains(other, k);
        assert(others(all, ledger.root).len() > 0);
    }
}

/// What was said first stays so.
proof fn lemma_tags_begin(ledger: Ledger, effects: Seq<Effect>)
    requires
        effects.len() > 0,
    ensures
        ledger.tags(effects).1.len() > 0,
        ledger.tags(effects).1[0] == effects[0],
{
    lemma_tag_begins(
        ledger,
        tags_of(ledger.initial),
        effects.push(Effect::Print(moving_tags())),
    );
}

proof fn lemma_tag_begins(ledger: Ledger, tags: Seq<Ref>, effects: Seq<Effect>)
    requires
        effects.len() > 0,
    ensures
        ledger.tag(tags, effects).1.len() > 0,
        ledger.tag(tags, effects).1[0] == effects[0],
    decreases tags.len(),
{
    if tags.len() > 0 {
        lemma_tag_begins(ledger, tags.drop_first(), effects);
    }
}

/// The commits that a pass looks at are those that the walk brings up.
pub proof fn passes_look_at_the_walk(
    ledger: Ledger,
    pass: Pass,
    names: Seq<Text>,
    commits: Seq<Oid>,
)
    ensures
        ({
            let step = ledger.at(Stage::Walk { goal: Goal::Pass(pass), names }).advance(
                Reply::Commits(Ok(commits)),
            );
            let pairs = candidates(with_root(commits, ledger.root), ledger.canonicals, ledger.root);
            pairs.len() > 0 ==> step == (
                ledger.at(
                    Stage::Candidate(
                        Scan { pass, current: pairs[0], rest: pairs.drop_first() },
                    ),
                ),
                Seq::<Effect>::empty(),
            )
        }),
{
}

/// The commits of a survey are read one after the other, and all of them: the tree and the date of
/// each, and how many commits it has above the root, unless it is the root or that is known.
pub proof fn commits_take_turns(
    ledger: Ledger,
    survey: Survey,
    done: Seq<CommitInfo>,
    current: Oid,
    rest: Seq<Oid>,
    tree: Oid,
    date: i64,
    depth: usize,
)
    ensures
        ({
            let asked = ledger.at(Stage::Info { survey, done, current, rest });
            let read = asked.advance(Reply::TreeAndDate(Ok((tree, date)))).0;
            let known = current == ledger.root || ledger.depths.contains_key(current);
            let next = if known {
                read
            } else {
                read.advance(Reply::Count(Ok(depth))).0
            };
            &&& asked.request() == Request::ReadCommit(current)
            &&& !known ==> read.request() == Request::CountCommits {
                from: current,
                hide: ledger.root,
            }
            &&& rest.len() > 0 ==> {
                &&& next.stage matches Stage::Info {
                    survey: s,
                    done: learned,
                    current: c,
                    rest: left,
                }
                &&& s == survey
                &&& c == rest[0]
                &&& left == rest.drop_first()
                &&& learned.len() == done.len() + 1
                &&& learned.drop_last() == done
                &&& learned.last().oid == current
                &&& learned.last().tree_id == tree
                &&& learned.last().cdate == date
                &&& learned.last().depth == if current == ledger.root {
                    0
                } else if ledger.depths.contains_key(current) {
                    ledger.depths[current]
                } else {
                    depth
                }
            }
        }),
{
    let asked = ledger.at(Stage::Info { survey, done, current, rest });
    let read = asked.advance(Reply::TreeAndDate(Ok((tree, date)))).0;
    let next = if current == ledger.root || ledger.depths.contains_key(current) {
        read
    } else {
        read.advance(Reply::Count(Ok(depth))).0
    };
    if let Stage::Info { done: learned, .. } = next.stage {
        if rest.len() > 0 {
            assert(learned.drop_last() =~= done);
        }
    }
}

/// The commits that get temporary branches get them one after the other, and all of them: each is
/// looked for, and its branch is made at it under `gto/`, by its digits.
pub proof fn temporary_branches_take_turns(
    ledger: Ledger,
    current: Oid,
    rest: Seq<Oid>,
)
    requires
        !ledger.options.dry_run,
    ensures
        ({
            let asked = ledger.at(Stage::Branch { current, rest });
            let step = asked.advance(Reply::Found(Ok(())));
            let made = Effect::CreateBranch {
                name: "gto/"@ + hex(current.bytes@),
                target: current,
            };
            &&& asked.request() == Request::FindCommit(current)
            &&& step.0.ledger.added
            &&& rest.len() == 0 ==> step.1 == seq![made]
            &&& rest.len() > 0 ==> {
                &&& step.0.stage == Stage::Branch { current: rest[0], rest: rest.drop_first() }
                &&& step.1 == seq![
                    made,
                    Effect::Print(
                        "Step 0: creating temporary branch refs/heads/gto/"@ + hex(rest[0].bytes@)
                            + " for duplicate commit "@ + hex(rest[0].bytes@),
                    ),
                ]
            }
        }),
{
    names_are_told_by_how_they_begin(Seq::empty(), current);
    if rest.len() > 0 {
        lines_name_commits_and_branches(Seq::empty(), rest[0], rest[0], 0, 0);
        let made = Effect::CreateBranch { name: "gto/"@ + hex(current.bytes@), target: current };
        let said = Effect::Print(
            "Step 0: creating temporary branch refs/heads/gto/"@ + hex(rest[0].bytes@)
                + " for duplicate commit "@ + hex(rest[0].bytes@),
        );
        assert(seq![made].push(said) =~= seq![made, said]);
    }
}

/// A survey is of all commits that the walk brings up, and the root, in order.
pub proof fn surveys_begin_with_the_walk(ledger: Ledger, names: Seq<Text>, commits: Seq<Oid>)
    ensures
        ({
            let all = if commits.contains(ledger.root) {
                commits
            } else {
                seq![ledger.root] + commits
            };
            let reply = Reply::Commits(Ok(commits));
            let none = Seq::<Effect>::empty();
            &&& ledger.at(Stage::Walk { goal: Goal::Initial, names }).advance(reply) == (
                ledger.at(
                    Stage::Info {
                        survey: Survey::Initial,
                        done: Seq::empty(),
                        current: all[0],
                        rest: all.drop_first(),
                    },
                ),
                none,
            )
            &&& ledger.at(Stage::Walk { goal: Goal::Canonicals, names }).advance(reply) == (
                ledger.at(
                    Stage::Info {
                        survey: Survey::Round,
                        done: Seq::empty(),
                        current: all[0],
                        rest: all.drop_first(),
                    },
                ),
                none,
            )
        }),
{
    the_root_is_among_the_commits(commits, ledger.root);
}

/// A dry run says of each temporary branch that it would make one, and notes that in its plan, in
/// the same order.
pub proof fn dry_runs_tell_of_temporary_branches(
    ledger: Ledger,
    shared: Seq<Oid>,
    records: Seq<Result<Record, Failure>>,
)
    requires
        ledger.options.dry_run,
        local_refs(records) is Ok,
    ensures
        ({
            let missing = unbranched(shared, local_refs(records)->Ok_0, ledger.root);
            let step = ledger.at(Stage::Heads { shared }).advance(Reply::Refs(Ok(records)));
            &&& step.1 == missing.map_values(
                |c: Oid|
                    Effect::Print(
                        "Step 0: creating temporary branch refs/heads/gto/"@ + hex(c.bytes@)
                            + " for duplicate commit "@ + hex(c.bytes@),
                    ),
            )
            &&& step.0.ledger.plan == ledger.plan + missing.map_values(
                |c: Oid|
                    "Step 0: create temp branch refs/heads/gto/"@ + hex(c.bytes@) + " for "@ + hex(
                        c.bytes@,
                    ),
            )
        }),
{
    let missing = unbranched(shared, local_refs(records)->Ok_0, ledger.root);
    let step = ledger.at(Stage::Heads { shared }).advance(Reply::Refs(Ok(records)));
    let lines = missing.map_values(
        |c: Oid|
            Effect::Print(
                "Step 0: creating temporary branch refs/heads/gto/"@ + hex(c.bytes@)
                    + " for duplicate commit "@ + hex(c.bytes@),
            ),
    );
    let items = missing.map_values(
        |c: Oid|
            "Step 0: create temp branch refs/heads/gto/"@ + hex(c.bytes@) + " for "@ + hex(
                c.bytes@,
            ),
    );
    assert forall|i: int| 0 <= i < missing.len() implies print_branching(missing)[i] == lines[i]
        && branching_plan(missing[i]) == items[i] by {
        lines_name_commits_and_branches(Seq::empty(), missing[i], missing[i], 0, 0);
    }
    assert(step.1 =~= lines);
    assert(step.0.ledger.plan =~= ledger.plan + items);
}

/// Before a tag is set, the object to which it goes is looked for; then it is set to that.
pub proof fn tags_go_to_what_is_there(ledger: Ledger, tag: Ref, target: Oid, rest: Seq<Ref>)
    ensures
        ({
            let asked = ledger.at(Stage::Tag { tag, target, rest });
            let step = asked.advance(Reply::Found(Ok(())));
            &&& asked.request() == Request::FindObject(target)
            &&& step.1.len() > 0
            &&& step.1[0] == Effect::SetTag { name: trimmed(tag.name, "refs/tags/"@), target }
            &&& forall|i: int| 0 < i < step.1.len() ==> (#[trigger] step.1[i]) is Print
        }),
{
    lemma_tag_only_prints(
        ledger,
        rest,
        seq![Effect::SetTag { name: trimmed(tag.name, "refs/tags/"@), target }],
    );
}

proof fn lemma_tag_only_prints(ledger: Ledger, tags: Seq<Ref>, effects: Seq<Effect>)
    requires
        effects.len() == 1,
    ensures
        ({
            let all = ledger.tag(tags, effects).1;
            &&& all.len() > 0
            &&& all[0] == effects[0]
            &&& forall|i: int| 0 < i < all.len() ==> (#[trigger] all[i]) is Print
        }),
    decreases tags.len(),
{
    if tags.len() > 0 {
        lemma_tag_only_prints(ledger, tags.drop_first(), effects);
    }
}

/// The stage is about one of the tags, and those after it are left.
pub open spec fn is_one_of(tags: Seq<Ref>, stage: Stage) -> bool {
    stage matches Stage::Tag { tag, rest, .. } ==> exists|k: int|
        0 <= k < tags.len() && tag == #[trigger] tags[k] && rest == tags.skip(k + 1)
}

proof fn lemma_one_of(ledger: Ledger, tags: Seq<Ref>, effects: Seq<Effect>)
    ensures
        is_one_of(tags, ledger.tag(tags, effects).0.stage),
    decreases tags.len(),
{
    if tags.len() > 0 {
        let rest = tags.drop_first();
        lemma_one_of(ledger, rest, effects);
        assert(tags.skip(1) =~= rest);
        if let Stage::Tag { tag, rest: left, .. } = ledger.tag(rest, effects).0.stage {
            let k = choose|k: int|
                0 <= k < rest.len() && tag == #[trigger] rest[k] && left == rest.skip(k + 1);
            assert(tags[k + 1] == tag);
            assert(tags.skip(k + 2) =~= rest.skip(k + 1));
        }
        assert(tags[0] == tags[0]);
    }
}

/// Tags are moved in the order in which they were found.
pub proof fn tags_take_turns(ledger: Ledger, tag: Ref, target: Oid, rest: Seq<Ref>)
    ensures
        is_one_of(
            rest,
            ledger.at(Stage::Tag { tag, target, rest }).advance(Reply::Found(Ok(()))).0.stage,
        ),
{
    lemma_one_of(
        ledger,
        rest,
        seq![Effect::SetTag { name: trimmed(tag.name, "refs/tags/"@), target }],
    );
}

/// Where nothing is listed, no walk is asked for, and no commit is there: a round is over at once.
pub proof fn nothing_listed_is_nothing_to_do(
    ledger: Ledger,
    records: Seq<Result<Record, Failure>>,
)
    requires
        local_refs(records) == Ok::<Seq<Ref>, Failure>(Seq::empty()),
    ensures
        ({
            let step = ledger.at(Stage::WalkNames(Goal::Round)).advance(Reply::Refs(Ok(records)));
            &&& is_closing(step.0.stage)
            &&& step.1.len() > 0
            &&& step.1[0] == Effect::Print("No reachable commits to optimize."@)
        }),
{
    let said = seq![Effect::Print(nothing_to_do())];
    let none = Seq::<Oid>::empty();
    none.lemma_filter_len(other_than(ledger.root));
    lemma_tags_close(ledger, said);
    lemma_tags_begin(ledger, said);
}

} // verus!
