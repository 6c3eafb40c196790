//! Runs on a repository that tells the truth and does what it is told.
//!
//! The id of a commit fixes its tree, its date and its history, so these never change. What changes
//! are the branches and tags.
use vstd::prelude::*;
use crate::canonical::CommitInfo;
use crate::laws::replay::replay;
use crate::laws::soundness::{is_line, lemma_temporary_trimmed};
use crate::model::{Effect, Reply, Request, Run};
use crate::oid::Oid;
use crate::refs::{
    counts, entry_of, is_head, is_keep, is_movable, is_tag, is_tag_stand_in, is_temporary,
    keep_branch, keep_ref, local_refs, stands_for_name, temporary_branch, temporary_ref,
    the_last_record_of_a_name_counts, Failure, Record, Ref,
};
use crate::text::Text;

verus! {

/// What the ids of commits stand for, and the commit above which history is optimized.
pub struct World {
    pub tree: spec_fn(Oid) -> Oid,
    pub date: spec_fn(Oid) -> i64,
    /// The commits that can be reached from a commit, itself among them.
    pub reach: spec_fn(Oid) -> Set<Oid>,
    pub root: Oid,
}

/// The branches and tags of a repository, with the commits at which they stand.
pub type Refs = Map<Text, Oid>;

/// The references hold this one.
pub open spec fn holds(refs: Refs, r: Ref) -> bool {
    refs.contains_key(r.name) && refs[r.name] == r.target
}

/// The record is that of a branch or a tag, with this name and at this commit: the one that it names,
/// or else the one to which it leads.
pub open spec fn shows(record: Record, name: Text, commit: Oid) -> bool {
    &&& record.name == Some(name)
    &&& "refs/heads/"@.is_prefix_of(name) || "refs/tags/"@.is_prefix_of(name)
    &&& record.target == Some(commit) || record.target is None && record.peeled == Some(commit)
}

/// A listing shows the branches and tags and no others.
pub open spec fn lists(refs: Refs, records: Seq<Result<Record, Failure>>) -> bool {
    &&& forall|i: int| 0 <= i < records.len() ==> (#[trigger] records[i]) is Ok
    &&& forall|i: int, name: Text, commit: Oid|
        0 <= i < records.len() && #[trigger] shows(records[i]->Ok_0, name, commit)
            ==> refs.contains_key(name) && refs[name] == commit
    &&& forall|name: Text| #[trigger]
        refs.contains_key(name) && ("refs/heads/"@.is_prefix_of(name)
            || "refs/tags/"@.is_prefix_of(name)) ==> exists|i: int|
            #![trigger records[i]]
            0 <= i < records.len() && shows(records[i]->Ok_0, name, refs[name])
}

/// What a record shows is what it stands for.
pub(crate) proof fn lemma_shows(record: Record, name: Text, commit: Oid)
    ensures
        shows(record, name, commit) <==> entry_of(record) == Some(Ref { name, target: commit }),
{
}

/// What an effect makes of the references.
pub open spec fn apply(refs: Refs, effect: Effect) -> Refs {
    match effect {
        Effect::CreateBranch { name, target } => if refs.contains_key("refs/heads/"@ + name) {
            refs
        } else {
            refs.insert("refs/heads/"@ + name, target)
        },
        Effect::SetRef { name, target, .. } => refs.insert(name, target),
        Effect::SetTag { name, target } => refs.insert("refs/tags/"@ + name, target),
        Effect::DeleteBranch { name } => refs.remove("refs/heads/"@ + name),
        _ => refs,
    }
}

/// What effects make of the references, one after the other.
pub open spec fn perform(refs: Refs, effects: Seq<Effect>) -> Refs
    decreases effects.len(),
{
    if effects.len() == 0 {
        refs
    } else {
        apply(perform(refs, effects.drop_last()), effects.last())
    }
}

/// The references and the run after a number of replies.
pub open spec fn course(refs: Refs, run: Run, replies: Seq<Reply>) -> (Refs, Run)
    decreases replies.len(),
{
    if replies.len() == 0 {
        (refs, run)
    } else {
        let before = course(refs, run, replies.drop_last());
        let step = before.1.advance(replies.last());
        (perform(before.0, step.1), step.0)
    }
}

/// The branch is one from which a walk starts.
pub open spec fn is_walked(name: Text) -> bool {
    !is_tag_stand_in(name) && !is_tag(name)
}

impl World {
    /// The first commit reaches the second.
    pub open spec fn reaches(self, from: Oid, to: Oid) -> bool {
        (self.reach)(from).contains(to)
    }

    /// The first commit descends from the second.
    pub open spec fn descends(self, commit: Oid, ancestor: Oid) -> bool {
        commit != ancestor && self.reaches(commit, ancestor)
    }

    /// Histories are finite, and can be counted; a commit reaches itself and all that the commits
    /// reach that it reaches; no two commits reach one another.
    pub open spec fn wf(self) -> bool {
        &&& forall|a: Oid| #[trigger] self.reaches(a, a)
        &&& forall|a: Oid| (#[trigger] (self.reach)(a)).finite()
        &&& forall|a: Oid| (#[trigger] (self.reach)(a)).len() <= usize::MAX
        &&& forall|a: Oid, b: Oid, c: Oid| #[trigger]
            self.reaches(a, b) && #[trigger] self.reaches(b, c) ==> self.reaches(a, c)
        &&& forall|a: Oid, b: Oid| #[trigger]
            self.reaches(a, b) && #[trigger] self.reaches(b, a) ==> a == b
    }

    /// The commits that one commit reaches and another does not.
    pub open spec fn range(self, from: Oid, hide: Oid) -> Set<Oid> {
        (self.reach)(from).difference((self.reach)(hide))
    }

    /// One of the references reaches the commit.
    pub open spec fn is_reached(self, refs: Refs, names: Seq<Text>, commit: Oid) -> bool {
        exists|i: int|
            0 <= i < names.len() && refs.contains_key(#[trigger] names[i]) && self.reaches(
                refs[names[i]],
                commit,
            )
    }

    /// How many commits stand above the root on the way to a commit.
    pub open spec fn depth(self, commit: Oid) -> nat {
        self.range(commit, self.root).len()
    }

    /// What there is to know of a commit.
    pub open spec fn fact(self, commit: Oid) -> CommitInfo {
        CommitInfo {
            tree_id: (self.tree)(commit),
            depth: self.depth(commit) as usize,
            cdate: (self.date)(commit),
            oid: commit,
        }
    }

    /// Whether a repository with these references may reply in this way. It may always fail, but
    /// not lie; it copies a commit by its tree onto the parent alone.
    pub open spec fn tells(self, refs: Refs, request: Request, reply: Reply) -> bool {
        match request {
            Request::ResolveCommit(_) => reply matches Reply::Commit(Ok(commit)) ==> commit
                == self.root,
            Request::ListRefs => reply matches Reply::Refs(Ok(records)) ==> lists(refs, records),
            Request::Descendant { commit, ancestor } => reply matches Reply::Answer(answer) ==> (
            answer == Ok::<bool, Failure>(true)) == self.descends(commit, ancestor),
            Request::WalkRefs { names, hide } => reply matches Reply::Commits(Ok(commits)) ==> {
                forall|c: Oid| #[trigger]
                    commits.contains(c) <==> !self.reaches(hide, c) && self.is_reached(
                        refs,
                        names,
                        c,
                    )
            },
            Request::ReadCommit(commit) => reply matches Reply::TreeAndDate(Ok((tree, date))) ==> {
                &&& tree == (self.tree)(commit)
                &&& date == (self.date)(commit)
            },
            Request::CountCommits { from, hide } => reply matches Reply::Count(Ok(count)) ==> count
                == self.range(from, hide).len(),
            Request::FindRef(name) => reply matches Reply::Found(found) ==> (found is Ok)
                == refs.contains_key(name),
            Request::PeelRef(name) => reply matches Reply::Commit(Ok(commit)) ==> holds(
                refs,
                Ref { name, target: commit },
            ),
            Request::WalkCommits { from, hide } => reply matches Reply::Commits(Ok(commits)) ==> {
                &&& commits.no_duplicates()
                &&& commits.to_set() == self.range(from, hide)
                &&& forall|i: int, j: int|
                    0 <= i < j < commits.len() ==> !self.reaches(
                        #[trigger] commits[i],
                        #[trigger] commits[j],
                    )
            },
            Request::CopyCommit { source, parent } => reply matches Reply::Commit(Ok(copy)) ==> {
                &&& (self.tree)(copy) == (self.tree)(source)
                &&& (self.reach)(copy) == (self.reach)(parent).insert(copy)
                &&& !self.reaches(parent, copy)
            },
            _ => true,
        }
    }

    /// Whether a repository with these references at the start may give the replies in this order
    /// to a run that it carries out.
    pub open spec fn is_honest(self, refs: Refs, run: Run, replies: Seq<Reply>) -> bool
        decreases replies.len(),
    {
        replies.len() == 0 || {
            let before = course(refs, run, replies.drop_last());
            &&& self.is_honest(refs, run, replies.drop_last())
            &&& self.tells(before.0, before.1.request(), replies.last())
        }
    }

    /// The commit is one that a walk over the branches brings up.
    pub open spec fn is_in_walk(self, refs: Refs, commit: Oid) -> bool {
        &&& !self.reaches(self.root, commit)
        &&& exists|name: Text| #[trigger]
            refs.contains_key(name) && is_walked(name) && (is_head(name) || is_tag(name))
                && self.reaches(refs[name], commit)
    }

    /// The commit is the root, or one that a walk brings up.
    pub open spec fn is_in_scope(self, refs: Refs, commit: Oid) -> bool {
        commit == self.root || self.is_in_walk(refs, commit)
    }

    /// No commit with the same tree ranks before this one.
    pub open spec fn is_best(self, refs: Refs, commit: Oid) -> bool {
        forall|other: Oid| #[trigger]
            self.is_in_scope(refs, other) && (self.tree)(other) == (self.tree)(commit)
                ==> !self.fact(other).ranks_before(self.fact(commit))
    }

    /// The commit is not the canonical one of its tree.
    pub open spec fn is_duplicate(self, refs: Refs, commit: Oid) -> bool {
        self.is_in_walk(refs, commit) && !self.is_best(refs, commit)
    }

    /// No branch that a run may move is above the commit.
    pub open spec fn is_bare(self, refs: Refs, commit: Oid) -> bool {
        forall|name: Text| #[trigger]
            refs.contains_key(name) && is_movable(name) ==> !self.descends(refs[name], commit)
    }

    /// Every duplicate is kept, and no branch that a run may move is above it.
    pub open spec fn is_settled(self, refs: Refs) -> bool {
        forall|commit: Oid| #[trigger]
            self.is_duplicate(refs, commit) ==> refs.contains_key(keep_ref(commit)) && self.is_bare(
                refs,
                commit,
            )
    }
}

/// The run goes the same way whether or not the references are looked at.
pub proof fn lemma_course(refs: Refs, run: Run, replies: Seq<Reply>)
    ensures
        course(refs, run, replies).1 == replay(run, replies).0,
    decreases replies.len(),
{
    if replies.len() > 0 {
        lemma_course(refs, run, replies.drop_last());
    }
}

/// The last record that stands for `r`.
proof fn lemma_last_record(records: Seq<Result<Record, Failure>>, i: int, r: Ref) -> (last: int)
    requires
        0 <= i < records.len(),
        entry_of(records[i]->Ok_0) == Some(r),
    ensures
        i <= last < records.len(),
        entry_of(records[last]->Ok_0) == Some(r),
        forall|j: int|
            last < j < records.len() ==> entry_of((#[trigger] records[j])->Ok_0) != Some(r),
    decreases records.len() - i,
{
    if exists|j: int| i < j < records.len() && entry_of((#[trigger] records[j])->Ok_0) == Some(r) {
        let j = choose|j: int|
            i < j < records.len() && entry_of((#[trigger] records[j])->Ok_0) == Some(r);
        lemma_last_record(records, j, r)
    } else {
        i
    }
}

/// A listing gives the branches and tags.
pub(crate) proof fn lemma_listed(refs: Refs, records: Seq<Result<Record, Failure>>)
    requires
        lists(refs, records),
    ensures
        local_refs(records) is Ok,
        forall|r: Ref| #[trigger]
            local_refs(records)->Ok_0.contains(r) <==> holds(refs, r) && (is_head(r.name)
                || is_tag(r.name)),
{
    assert forall|r: Ref| local_refs(records) is Ok && (#[trigger] local_refs(
        records,
    )->Ok_0.contains(r) <==> holds(refs, r) && (is_head(r.name) || is_tag(r.name))) by {
        the_last_record_of_a_name_counts(records, r);
        if local_refs(records)->Ok_0.contains(r) {
            let i = choose|i: int| counts(records, i, r);
            lemma_shows(records[i]->Ok_0, r.name, r.target);
            assert(shows(records[i]->Ok_0, r.name, r.target));
        }
        if holds(refs, r) && (is_head(r.name) || is_tag(r.name)) {
            assert(refs.contains_key(r.name));
            let i = choose|i: int|
                #![trigger records[i]]
                0 <= i < records.len() && shows(records[i]->Ok_0, r.name, refs[r.name]);
            lemma_shows(records[i]->Ok_0, r.name, r.target);
            let last = lemma_last_record(records, i, r);
            assert forall|j: int| last < j < records.len() implies !stands_for_name(
                #[trigger] records[j],
                r.name,
            ) by {
                assert(records[j] is Ok);
                if stands_for_name(records[j], r.name) {
                    let other = entry_of(records[j]->Ok_0)->0;
                    lemma_shows(records[j]->Ok_0, other.name, other.target);
                    assert(shows(records[j]->Ok_0, other.name, other.target));
                    assert(holds(refs, other));
                    assert(other == r);
                }
            }
            assert(counts(records, last, r));
        }
    }
    the_last_record_of_a_name_counts(records, Ref { name: Seq::empty(), target: arbitrary() });
}

pub(crate) proof fn lemma_perform_add(refs: Refs, first: Seq<Effect>, second: Seq<Effect>)
    ensures
        perform(refs, first + second) == perform(perform(refs, first), second),
    decreases second.len(),
{
    if second.len() == 0 {
        assert(first + second =~= first);
    } else {
        lemma_perform_add(refs, first, second.drop_last());
        assert((first + second).drop_last() =~= first + second.drop_last());
    }
}

pub(crate) proof fn lemma_perform_push(refs: Refs, effects: Seq<Effect>, effect: Effect)
    ensures
        perform(refs, effects.push(effect)) == apply(perform(refs, effects), effect),
{
    assert(effects.push(effect).drop_last() =~= effects);
}

/// One effect.
pub(crate) proof fn lemma_perform_one(refs: Refs, effect: Effect)
    ensures
        perform(refs, seq![effect]) == apply(refs, effect),
{
    assert(seq![effect].drop_last() =~= Seq::<Effect>::empty());
    assert(perform(refs, seq![effect].drop_last()) == refs);
}

/// Lines change no reference.
pub(crate) proof fn lemma_perform_lines(refs: Refs, effects: Seq<Effect>, lines: Seq<Effect>)
    requires
        forall|i: int| 0 <= i < lines.len() ==> is_line(#[trigger] lines[i]),
    ensures
        perform(refs, effects + lines) == perform(refs, effects),
    decreases lines.len(),
{
    if lines.len() == 0 {
        assert(effects + lines =~= effects);
    } else {
        lemma_perform_lines(refs, effects, lines.drop_last());
        assert((effects + lines).drop_last() =~= effects + lines.drop_last());
        assert(is_line(lines[lines.len() - 1]));
    }
}

/// What the branches of a run are called, as references.
pub(crate) proof fn lemma_own_refs(commit: Oid)
    ensures
        "refs/heads/"@ + temporary_branch(commit) == temporary_ref(commit),
        "refs/heads/"@ + keep_branch(commit) == keep_ref(commit),
        is_head(temporary_ref(commit)),
        is_head(keep_ref(commit)),
        is_walked(temporary_ref(commit)),
        is_walked(keep_ref(commit)),
{
    reveal_strlit("refs/heads/");
    reveal_strlit("refs/tags/");
    reveal_strlit("gto/");
    reveal_strlit("gto-keep/");
    reveal_strlit("refs/heads/gto/");
    reveal_strlit("refs/heads/gto-keep/");
    reveal_strlit("refs/heads/gto-tag-tmp/");
    assert("refs/heads/"@ + "gto/"@ =~= "refs/heads/gto/"@);
    assert("refs/heads/"@ + "gto-keep/"@ =~= "refs/heads/gto-keep/"@);
    let (t, k) = (temporary_ref(commit), keep_ref(commit));
    assert("refs/heads/"@ + temporary_branch(commit) =~= t);
    assert("refs/heads/"@ + keep_branch(commit) =~= k);
    assert(t.take(11) =~= "refs/heads/"@);
    assert(k.take(11) =~= "refs/heads/"@);
    if is_tag(t) {
        assert(t.take(10)[5] == "refs/tags/"@[5]);
    }
    if is_tag(k) {
        assert(k.take(10)[5] == "refs/tags/"@[5]);
    }
    if is_tag_stand_in(t) {
        assert(t.take(23)[14] == "refs/heads/gto-tag-tmp/"@[14]);
    }
    if is_tag_stand_in(k) {
        assert(k.take(23)[15] == "refs/heads/gto-tag-tmp/"@[15]);
    }
}

/// A name is that of a branch or that of a tag, not of both.
pub(crate) proof fn lemma_heads_are_no_tags(name: Text)
    ensures
        !(is_head(name) && is_tag(name)),
{
    reveal_strlit("refs/heads/");
    reveal_strlit("refs/tags/");
    if is_head(name) && is_tag(name) {
        assert(name.take(11)[5] == "refs/heads/"@[5]);
        assert(name.take(10)[5] == "refs/tags/"@[5]);
    }
}

/// A temporary branch is a branch, and goes by its name without the prefix; so does each branch
/// that starts with the prefix of temporary ones.
pub(crate) proof fn lemma_temporary_names(name: Text)
    ensures
        is_temporary(name) ==> is_head(name) && !is_keep(name) && "refs/heads/"@ + name.skip(11)
            == name,
        "gto/"@.is_prefix_of(name) ==> is_temporary("refs/heads/"@ + name),
{
    reveal_strlit("refs/heads/");
    reveal_strlit("gto/");
    reveal_strlit("refs/heads/gto/");
    if is_temporary(name) {
        lemma_temporary_trimmed(name);
        assert forall|i: int| 0 <= i < 11 implies name[i] == "refs/heads/"@[i] by {
            assert(name.take(15)[i] == "refs/heads/gto/"@[i]);
        }
        assert(name.take(11) =~= "refs/heads/"@);
        assert("refs/heads/"@ + name.skip(11) =~= name);
    }
    if "gto/"@.is_prefix_of(name) {
        let full = "refs/heads/"@ + name;
        assert forall|i: int| 0 <= i < 15 implies full[i] == "refs/heads/gto/"@[i] by {
            if i >= 11 {
                assert(name.take(4)[i - 11] == "gto/"@[i - 11]);
            }
        }
        assert(full.take(15) =~= "refs/heads/gto/"@);
    }
}

/// The name of a tag, put together.
pub(crate) proof fn lemma_tag_name(name: Text)
    ensures
        is_tag("refs/tags/"@ + name),
        !is_head("refs/tags/"@ + name),
{
    let full = "refs/tags/"@ + name;
    assert(full.subrange(0, "refs/tags/"@.len() as int) =~= "refs/tags/"@);
    lemma_heads_are_no_tags(full);
}

} // verus!
