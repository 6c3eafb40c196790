//! References: which of them count, and what they are called.
use vstd::prelude::*;
use vstd::utf8::encode_utf8;
use std::collections::VecDeque;
use crate::canonical::distinct;
use crate::oid::{hex, Oid};
use crate::oid_map::OidMap;
use crate::order::{
    bytes_less, bytes_less_irreflexive, bytes_less_total, bytes_less_transitive, is_bytes_less,
};
use crate::text::{starts_with, trim_start, trimmed, Text};

verus! {

/// Why the repository did not do what it was asked: in words, and by the numbers under which git
/// knows the kind of the error and the part of it that failed.
#[derive(Debug)]
pub struct GitError {
    pub message: String,
    pub code: i32,
    pub class: i32,
}

/// Why the repository did not do what it was asked, as contracts speak of it.
pub struct Failure {
    pub message: Text,
    pub code: i32,
    pub class: i32,
}

impl View for GitError {
    type V = Failure;

    open spec fn view(&self) -> Failure {
        Failure { message: self.message@, code: self.code, class: self.class }
    }
}

impl GitError {
    /// A copy of this error.
    pub fn copy(&self) -> (copy: GitError)
        ensures
            copy@ == self@,
    {
        GitError { message: self.message.clone(), code: self.code, class: self.class }
    }
}

/// A reference as the repository lists it. It has no name where the name is not UTF-8, and no
/// target where it is symbolic; `peeled` is then the commit that it leads to, if it leads to one.
#[derive(Debug)]
pub struct RefRecord {
    pub name: Option<String>,
    pub target: Option<Oid>,
    pub peeled: Option<Oid>,
}

/// A reference as the repository lists it, as contracts speak of it.
pub struct Record {
    pub name: Option<Text>,
    pub target: Option<Oid>,
    pub peeled: Option<Oid>,
}

impl View for RefRecord {
    type V = Record;

    open spec fn view(&self) -> Record {
        Record {
            name: match self.name {
                Some(name) => Some(name@),
                None => None,
            },
            target: self.target,
            peeled: self.peeled,
        }
    }
}

/// A reference and the commit that it stands for.
#[derive(Debug)]
pub struct RefEntry {
    pub name: String,
    pub target: Oid,
}

/// A reference and the commit that it stands for, as contracts speak of it.
pub struct Ref {
    pub name: Text,
    pub target: Oid,
}

impl View for RefEntry {
    type V = Ref;

    open spec fn view(&self) -> Ref {
        Ref { name: self.name@, target: self.target }
    }
}

impl RefEntry {
    /// A copy of this entry.
    pub fn copy(&self) -> (copy: RefEntry)
        ensures
            copy@ == self@,
    {
        RefEntry { name: self.name.clone(), target: self.target }
    }
}

/// The entries as contracts speak of them.
pub open spec fn refs_view(entries: Seq<RefEntry>) -> Seq<Ref> {
    entries.map_values(|entry: RefEntry| entry@)
}

/// One listed reference, or why it could not be read, as contracts speak of it.
pub open spec fn record_view(record: Result<RefRecord, GitError>) -> Result<Record, Failure> {
    match record {
        Ok(record) => Ok(record@),
        Err(error) => Err(error@),
    }
}

/// The listed references as contracts speak of them.
pub open spec fn records_view(records: Seq<Result<RefRecord, GitError>>) -> Seq<
    Result<Record, Failure>,
> {
    records.map_values(|record: Result<RefRecord, GitError>| record_view(record))
}

/// The name of a branch.
pub open spec fn is_head(name: Text) -> bool {
    "refs/heads/"@.is_prefix_of(name)
}

/// The name of a tag.
pub open spec fn is_tag(name: Text) -> bool {
    "refs/tags/"@.is_prefix_of(name)
}

/// The name of a branch that a run makes for a duplicate and takes away in the end.
pub open spec fn is_temporary(name: Text) -> bool {
    "refs/heads/gto/"@.is_prefix_of(name)
}

/// The name of a branch that keeps commits reachable which a run moves other branches away from.
pub open spec fn is_keep(name: Text) -> bool {
    "refs/heads/gto-keep/"@.is_prefix_of(name)
}

/// The name of a branch that stands in for a tag.
pub open spec fn is_tag_stand_in(name: Text) -> bool {
    "refs/heads/gto-tag-tmp/"@.is_prefix_of(name)
}

/// The temporary branch for a commit, as a branch.
pub open spec fn temporary_branch(commit: Oid) -> Text {
    "gto/"@ + hex(commit.bytes@)
}

/// The temporary branch for a commit, as a reference.
pub open spec fn temporary_ref(commit: Oid) -> Text {
    "refs/heads/gto/"@ + hex(commit.bytes@)
}

/// The branch that keeps a commit, as a branch.
pub open spec fn keep_branch(commit: Oid) -> Text {
    "gto-keep/"@ + hex(commit.bytes@)
}

/// The branch that keeps a commit, as a reference.
pub open spec fn keep_ref(commit: Oid) -> Text {
    "refs/heads/gto-keep/"@ + hex(commit.bytes@)
}

pub(crate) fn temporary_branch_text(commit: &Oid) -> (text: String)
    ensures
        text@ == temporary_branch(*commit),
{
    let mut text = "gto/".to_owned();
    text.append(commit.to_hex().as_str());
    text
}

pub(crate) fn temporary_ref_text(commit: &Oid) -> (text: String)
    ensures
        text@ == temporary_ref(*commit),
{
    let mut text = "refs/heads/gto/".to_owned();
    text.append(commit.to_hex().as_str());
    text
}

pub(crate) fn keep_branch_text(commit: &Oid) -> (text: String)
    ensures
        text@ == keep_branch(*commit),
{
    let mut text = "gto-keep/".to_owned();
    text.append(commit.to_hex().as_str());
    text
}

pub(crate) fn keep_ref_text(commit: &Oid) -> (text: String)
    ensures
        text@ == keep_ref(*commit),
{
    let mut text = "refs/heads/gto-keep/".to_owned();
    text.append(commit.to_hex().as_str());
    text
}

/// The order of names: that of their bytes.
pub open spec fn name_less(a: Text, b: Text) -> bool {
    bytes_less(encode_utf8(a), encode_utf8(b))
}

fn is_name_less(a: &String, b: &String) -> (less: bool)
    ensures
        less == name_less(a@, b@),
{
    is_bytes_less(a.as_str().as_bytes(), b.as_str().as_bytes())
}

/// The order of names is a strict total order.
pub proof fn name_less_is_strict_total_order(a: Text, b: Text, c: Text)
    ensures
        !name_less(a, a),
        name_less(a, b) && name_less(b, c) ==> name_less(a, c),
        a == b || name_less(a, b) || name_less(b, a),
{
    bytes_less_irreflexive(encode_utf8(a));
    if name_less(a, b) && name_less(b, c) {
        bytes_less_transitive(encode_utf8(a), encode_utf8(b), encode_utf8(c));
    }
    bytes_less_total(encode_utf8(a), encode_utf8(b));
    if encode_utf8(a) == encode_utf8(b) {
        vstd::utf8::encode_utf8_decode_utf8(a);
        vstd::utf8::encode_utf8_decode_utf8(b);
    }
}

/// The entries stand in the order of their names, each name once.
pub open spec fn sorted(refs: Seq<Ref>) -> bool {
    forall|i: int, j: int| 0 <= i < j < refs.len() ==> name_less(refs[i].name, refs[j].name)
}

/// The branch or tag that a record stands for: its target, or else the commit that it peels to.
pub open spec fn entry_of(record: Record) -> Option<Ref> {
    match record.name {
        Some(name) => if is_head(name) || is_tag(name) {
            match record.target {
                Some(target) => Some(Ref { name, target }),
                None => match record.peeled {
                    Some(target) => Some(Ref { name, target }),
                    None => None,
                },
            }
        } else {
            None
        },
        None => None,
    }
}

/// How many entries at the front have smaller names.
pub open spec fn slot(refs: Seq<Ref>, name: Text) -> int
    decreases refs.len(),
{
    if refs.len() == 0 || !name_less(refs[0].name, name) {
        0
    } else {
        1 + slot(refs.drop_first(), name)
    }
}

/// The entries with `entry` among them, in the place of the one of its name if there is one.
pub open spec fn put(refs: Seq<Ref>, entry: Ref) -> Seq<Ref> {
    let at = slot(refs, entry.name);
    if at < refs.len() && refs[at].name == entry.name {
        refs.update(at, entry)
    } else {
        refs.insert(at, entry)
    }
}

/// The branches and tags among the listed references, in the order of their names. The first
/// record that could not be read makes the listing fail. Of two records with one name the later
/// one counts.
pub open spec fn local_refs(records: Seq<Result<Record, Failure>>) -> Result<Seq<Ref>, Failure>
    decreases records.len(),
{
    if records.len() == 0 {
        Ok(Seq::empty())
    } else {
        match local_refs(records.drop_last()) {
            Err(error) => Err(error),
            Ok(refs) => match records.last() {
                Err(error) => Err(error),
                Ok(record) => match entry_of(record) {
                    Some(entry) => Ok(put(refs, entry)),
                    None => Ok(refs),
                },
            },
        }
    }
}

proof fn lemma_slot(refs: Seq<Ref>, name: Text)
    ensures
        0 <= slot(refs, name) <= refs.len(),
        forall|i: int| 0 <= i < slot(refs, name) ==> name_less((#[trigger] refs[i]).name, name),
        slot(refs, name) < refs.len() ==> !name_less(refs[slot(refs, name)].name, name),
    decreases refs.len(),
{
    if refs.len() > 0 && name_less(refs[0].name, name) {
        lemma_slot(refs.drop_first(), name);
        assert forall|i: int| 0 <= i < slot(refs, name) implies name_less(
            (#[trigger] refs[i]).name,
            name,
        ) by {
            if i > 0 {
                assert(refs[i] == refs.drop_first()[i - 1]);
            }
        }
    }
}

proof fn lemma_slot_is(refs: Seq<Ref>, name: Text, at: int)
    requires
        sorted(refs),
        0 <= at <= refs.len(),
        at > 0 ==> name_less(refs[at - 1].name, name),
        at < refs.len() ==> !name_less(refs[at].name, name),
    ensures
        slot(refs, name) == at,
{
    lemma_slot(refs, name);
    let s = slot(refs, name);
    if s < at {
        name_less_is_strict_total_order(refs[s].name, refs[at - 1].name, name);
    } else if s > at {
        assert(name_less(refs[at].name, name));
    }
}

pub(crate) proof fn lemma_put(refs: Seq<Ref>, entry: Ref)
    requires
        sorted(refs),
    ensures
        sorted(put(refs, entry)),
        put(refs, entry).contains(entry),
        forall|r: Ref| #[trigger]
            put(refs, entry).contains(r) <==> r == entry || (refs.contains(r) && r.name
                != entry.name),
{
    let at = slot(refs, entry.name);
    lemma_slot(refs, entry.name);
    let after = put(refs, entry);
    name_less_is_strict_total_order(entry.name, entry.name, entry.name);
    assert forall|i: int| at <= i < refs.len() && refs[i].name != entry.name implies name_less(
        entry.name,
        (#[trigger] refs[i]).name,
    ) by {
        name_less_is_strict_total_order(entry.name, refs[at].name, refs[i].name);
        name_less_is_strict_total_order(entry.name, refs[i].name, refs[i].name);
        name_less_is_strict_total_order(refs[at].name, refs[i].name, entry.name);
    }
    if at < refs.len() && refs[at].name == entry.name {
        assert(sorted(after));
        assert(after[at] == entry);
        assert forall|r: Ref| #[trigger]
            after.contains(r) <==> r == entry || (refs.contains(r) && r.name != entry.name) by {
            if refs.contains(r) && r.name != entry.name {
                let i = choose|i: int| 0 <= i < refs.len() && refs[i] == r;
                assert(after[i] == r);
            }
            if after.contains(r) {
                let i = choose|i: int| 0 <= i < after.len() && after[i] == r;
                if i != at {
                    assert(refs[i] == r);
                    if i < at {
                        assert(name_less(refs[i].name, refs[at].name));
                    } else {
                        assert(name_less(refs[at].name, refs[i].name));
                    }
                }
            }
        }
    } else {
        assert forall|i: int| at <= i < refs.len() implies (#[trigger] refs[i]).name
            != entry.name by {
            if i > at {
                name_less_is_strict_total_order(refs[at].name, refs[i].name, entry.name);
                assert(name_less(refs[at].name, refs[i].name));
            }
        }
        assert forall|i: int, j: int| 0 <= i < j < after.len() implies name_less(
            after[i].name,
            after[j].name,
        ) by {
            let old_i = if i < at {
                i
            } else {
                i - 1
            };
            let old_j = if j < at {
                j
            } else {
                j - 1
            };
            if i != at {
                assert(after[i] == refs[old_i]);
            }
            if j != at {
                assert(after[j] == refs[old_j]);
            }
        }
        assert(after[at] == entry);
        assert forall|r: Ref| #[trigger]
            after.contains(r) <==> r == entry || (refs.contains(r) && r.name != entry.name) by {
            if refs.contains(r) {
                let i = choose|i: int| 0 <= i < refs.len() && refs[i] == r;
                if i < at {
                    assert(after[i] == r);
                } else {
                    assert(after[i + 1] == r);
                }
            }
            if after.contains(r) {
                let i = choose|i: int| 0 <= i < after.len() && after[i] == r;
                if i < at {
                    assert(refs[i] == r);
                    assert(name_less(refs[i].name, entry.name));
                } else if i > at {
                    assert(refs[i - 1] == r);
                }
            }
        }
    }
}

/// The local references are sorted by name, and each is a branch or a tag that some record
/// stands for.
pub proof fn local_refs_are_sorted(records: Seq<Result<Record, Failure>>)
    requires
        local_refs(records) is Ok,
    ensures
        sorted(local_refs(records)->Ok_0),
        forall|r: Ref| #[trigger]
            local_refs(records)->Ok_0.contains(r) ==> (is_head(r.name) || is_tag(r.name))
                && exists|i: int|
                0 <= i < records.len() && records[i] is Ok && #[trigger] entry_of(
                    records[i]->Ok_0,
                ) == Some(r),
    decreases records.len(),
{
    if records.len() > 0 {
        let front = records.drop_last();
        local_refs_are_sorted(front);
        let refs = local_refs(front)->Ok_0;
        let record = records.last()->Ok_0;
        match entry_of(record) {
            Some(entry) => {
                lemma_put(refs, entry);
            },
            None => {},
        }
        assert forall|r: Ref| #[trigger] local_refs(records)->Ok_0.contains(r) implies (is_head(
            r.name,
        ) || is_tag(r.name)) && exists|i: int|
            0 <= i < records.len() && records[i] is Ok && #[trigger] entry_of(records[i]->Ok_0)
                == Some(r) by {
            if entry_of(record) == Some(r) {
                assert(entry_of(records[records.len() - 1]->Ok_0) == Some(r));
            } else {
                assert(refs.contains(r));
                let i = choose|i: int|
                    0 <= i < front.len() && front[i] is Ok && #[trigger] entry_of(front[i]->Ok_0)
                        == Some(r);
                assert(entry_of(records[i]->Ok_0) == Some(r));
            }
        }
    }
}

/// The record stands for a branch or a tag with this name.
pub open spec fn stands_for_name(record: Result<Record, Failure>, name: Text) -> bool {
    entry_of(record->Ok_0) is Some && entry_of(record->Ok_0)->0.name == name
}

/// The record at `i` is the last one that stands for a branch or a tag with the name of `r`, and
/// it stands for `r`.
pub open spec fn counts(records: Seq<Result<Record, Failure>>, i: int, r: Ref) -> bool {
    &&& 0 <= i < records.len()
    &&& entry_of(records[i]->Ok_0) == Some(r)
    &&& forall|j: int| i < j < records.len() ==> !stands_for_name(#[trigger] records[j], r.name)
}

/// Where all records can be read, the local references are what the last record of each name
/// stands for.
pub proof fn the_last_record_of_a_name_counts(records: Seq<Result<Record, Failure>>, r: Ref)
    requires
        forall|i: int| 0 <= i < records.len() ==> (#[trigger] records[i]) is Ok,
    ensures
        local_refs(records) is Ok,
        local_refs(records)->Ok_0.contains(r) <==> exists|i: int| counts(records, i, r),
    decreases records.len(),
{
    if records.len() > 0 {
        let front = records.drop_last();
        let end = records.len() - 1;
        the_last_record_of_a_name_counts(front, r);
        local_refs_are_sorted(front);
        let refs = local_refs(front)->Ok_0;
        if let Some(entry) = entry_of(records.last()->Ok_0) {
            lemma_put(refs, entry);
        }
        if local_refs(records)->Ok_0.contains(r) {
            if entry_of(records.last()->Ok_0) == Some(r) {
                assert(counts(records, end, r));
            } else {
                let i = choose|i: int| counts(front, i, r);
                assert forall|j: int| i < j < records.len() implies !stands_for_name(
                    #[trigger] records[j],
                    r.name,
                ) by {
                    if j < end {
                        assert(front[j] == records[j]);
                    }
                }
                assert(counts(records, i, r));
            }
        }
        if exists|i: int| counts(records, i, r) {
            let i = choose|i: int| counts(records, i, r);
            if i < end {
                assert(records[end] == records.last());
                assert forall|j: int| i < j < front.len() implies !stands_for_name(
                    #[trigger] front[j],
                    r.name,
                ) by {
                    assert(records[j] == front[j]);
                }
                assert(counts(front, i, r));
            }
        }
    }
}

/// A listing fails where a record cannot be read, for the reason of the first such record.
pub proof fn the_first_unreadable_record_counts(records: Seq<Result<Record, Failure>>, i: int)
    requires
        0 <= i < records.len(),
        records[i] is Err,
        forall|k: int| 0 <= k < i ==> (#[trigger] records[k]) is Ok,
    ensures
        local_refs(records) == Err::<Seq<Ref>, Failure>(records[i]->Err_0),
{
    let front = records.take(i);
    assert forall|k: int| 0 <= k < front.len() implies (#[trigger] front[k]) is Ok by {
        assert(front[k] == records[k]);
    }
    the_last_record_of_a_name_counts(front, Ref { name: Seq::empty(), target: arbitrary() });
    lemma_local_refs_error(records, i);
}

fn put_entry(refs: &mut Vec<RefEntry>, entry: RefEntry)
    requires
        sorted(refs_view(old(refs)@)),
    ensures
        refs_view(final(refs)@) == put(refs_view(old(refs)@), entry@),
{
    let ghost before = refs_view(refs@);
    let mut at: usize = refs.len();
    while at > 0 && !is_name_less(&refs[at - 1].name, &entry.name)
        invariant
            at <= refs@.len(),
            before == refs_view(refs@),
            sorted(before),
            at < refs@.len() ==> !name_less(before[at as int].name, entry@.name),
        decreases at,
    {
        at -= 1;
    }
    proof {
        assert(at > 0 ==> before[at - 1] == refs@[at - 1]@);
        lemma_slot_is(before, entry@.name, at as int);
    }
    if at < refs.len() && refs[at].name == entry.name {
        refs.set(at, entry);
        proof {
            assert(refs_view(refs@) =~= before.update(at as int, entry@));
        }
    } else {
        refs.insert(at, entry);
        proof {
            assert(refs_view(refs@) =~= before.insert(at as int, entry@));
        }
    }
}

/// What a listing gives in place of the references, as contracts speak of it.
pub open spec fn refs_result_view(listed: Result<Vec<RefEntry>, GitError>) -> Result<
    Seq<Ref>,
    Failure,
> {
    match listed {
        Ok(refs) => Ok(refs_view(refs@)),
        Err(error) => Err(error@),
    }
}

proof fn lemma_local_refs_error(records: Seq<Result<Record, Failure>>, i: int)
    requires
        0 <= i < records.len(),
        local_refs(records.take(i)) is Ok,
        records[i] is Err,
    ensures
        local_refs(records) == Err::<Seq<Ref>, Failure>(records[i]->Err_0),
    decreases records.len(),
{
    if i == records.len() - 1 {
        assert(records.drop_last() =~= records.take(i));
    } else {
        let front = records.drop_last();
        assert(front.take(i) =~= records.take(i));
        lemma_local_refs_error(front, i);
    }
}

/// The branches and tags among the listed references.
pub fn collect_local_refs(records: Vec<Result<RefRecord, GitError>>) -> (listed: Result<
    Vec<RefEntry>,
    GitError,
>)
    ensures
        refs_result_view(listed) == local_refs(records_view(records@)),
{
    let ghost all = records_view(records@);
    let mut refs: Vec<RefEntry> = Vec::new();
    let mut i: usize = 0;
    proof {
        assert(refs_view(refs@) =~= Seq::<Ref>::empty());
    }
    while i < records.len()
        invariant
            i <= records@.len(),
            all == records_view(records@),
            local_refs(all.take(i as int)) == Ok::<Seq<Ref>, Failure>(refs_view(refs@)),
        decreases records@.len() - i,
    {
        proof {
            local_refs_are_sorted(all.take(i as int));
            assert(all.take(i + 1).drop_last() =~= all.take(i as int));
            assert(all.take(i + 1).last() == record_view(records@[i as int]));
        }
        match &records[i] {
            Err(error) => {
                proof {
                    lemma_local_refs_error(all, i as int);
                }
                return Err(error.copy());
            },
            Ok(record) => {
                if let Some(entry) = record_entry(record) {
                    put_entry(&mut refs, entry);
                }
            },
        }
        i += 1;
    }
    proof {
        assert(all.take(i as int) =~= all);
    }
    Ok(refs)
}

fn record_entry(record: &RefRecord) -> (entry: Option<RefEntry>)
    ensures
        entry_of(record@) == (match entry {
            Some(entry) => Some(entry@),
            None => None,
        }),
{
    match &record.name {
        Some(name) => {
            if starts_with(name.as_str(), "refs/heads/") || starts_with(
                name.as_str(),
                "refs/tags/",
            ) {
                match record.target {
                    Some(target) => Some(RefEntry { name: name.clone(), target }),
                    None => match record.peeled {
                        Some(target) => Some(RefEntry { name: name.clone(), target }),
                        None => None,
                    },
                }
            } else {
                None
            }
        },
        None => None,
    }
}

/// Texts as contracts speak of them.
pub open spec fn texts_view(texts: Seq<String>) -> Seq<Text> {
    texts.map_values(|text: String| text@)
}

/// The names that a walk over the branches starts from.
pub open spec fn walk_names(refs: Seq<Ref>) -> Seq<Text> {
    refs.filter(|r: Ref| !is_tag_stand_in(r.name) && !is_tag(r.name)).map_values(|r: Ref| r.name)
}

/// The tags.
pub open spec fn tags_of(refs: Seq<Ref>) -> Seq<Ref> {
    refs.filter(|r: Ref| is_tag(r.name))
}

/// A branch that a run may move: none of its own.
pub open spec fn is_movable(name: Text) -> bool {
    is_head(name) && !is_keep(name) && !is_temporary(name)
}

/// The branches that a run may move and that do not stand at `commit`.
pub open spec fn movable(refs: Seq<Ref>, commit: Oid) -> Seq<Ref> {
    refs.filter(|r: Ref| is_movable(r.name) && r.target != commit)
}

/// Some branch stands at `commit`.
pub open spec fn has_head(refs: Seq<Ref>, commit: Oid) -> bool {
    exists|i: int|
        0 <= i < refs.len() && is_head((#[trigger] refs[i]).name) && refs[i].target == commit
}

/// The test for a commit that is not `root` and at which no branch stands.
pub open spec fn is_unbranched(refs: Seq<Ref>, root: Oid) -> spec_fn(Oid) -> bool {
    |commit: Oid| commit != root && !has_head(refs, commit)
}

/// The commits, but for `root`, at which no branch stands, each once.
pub open spec fn unbranched(commits: Seq<Oid>, refs: Seq<Ref>, root: Oid) -> Seq<Oid> {
    distinct(commits.filter(is_unbranched(refs, root)))
}

/// The temporary branches among the listed references. Records that could not be read are passed
/// over.
pub open spec fn temporary_branches(records: Seq<Result<Record, Failure>>) -> Seq<Text>
    decreases records.len(),
{
    if records.len() == 0 {
        Seq::empty()
    } else {
        let before = temporary_branches(records.drop_last());
        match records.last() {
            Ok(Record { name: Some(name), .. }) => if is_temporary(name) && !is_keep(name) {
                before.push(trimmed(name, "refs/heads/"@))
            } else {
                before
            },
            _ => before,
        }
    }
}

/// The names that a walk over the branches starts from.
pub fn walk_name_list(refs: &Vec<RefEntry>) -> (names: Vec<String>)
    ensures
        texts_view(names@) == walk_names(refs_view(refs@)),
{
    broadcast use vstd::seq_lib::group_seq_properties;

    let ghost all = refs_view(refs@);
    let ghost wanted = |r: Ref| !is_tag_stand_in(r.name) && !is_tag(r.name);
    let mut names: Vec<String> = Vec::new();
    let mut i: usize = 0;
    proof {
        assert(all.take(0) =~= Seq::<Ref>::empty());
        assert(texts_view(names@) =~= all.take(0).filter(wanted).map_values(|r: Ref| r.name));
    }
    while i < refs.len()
        invariant
            i <= refs@.len(),
            all == refs_view(refs@),
            wanted == (|r: Ref| !is_tag_stand_in(r.name) && !is_tag(r.name)),
            texts_view(names@) == all.take(i as int).filter(wanted).map_values(|r: Ref| r.name),
        decreases refs@.len() - i,
    {
        let ghost before = names@;
        proof {
            assert(all.take(i + 1) =~= all.take(i as int).push(all[i as int]));
            all.take(i as int).lemma_filter_push(all[i as int], wanted);
            assert(all[i as int] == refs@[i as int]@);
        }
        if !starts_with(refs[i].name.as_str(), "refs/heads/gto-tag-tmp/") && !starts_with(
            refs[i].name.as_str(),
            "refs/tags/",
        ) {
            names.push(refs[i].name.clone());
            proof {
                let kept = all.take(i as int).filter(wanted);
                assert(wanted(all[i as int]));
                assert(kept.push(all[i as int]).map_values(|r: Ref| r.name)
                    =~= kept.map_values(|r: Ref| r.name).push(all[i as int].name));
                assert(texts_view(names@) =~= texts_view(before).push(all[i as int].name));
            }
        }
        i += 1;
    }
    proof {
        assert(all.take(i as int) =~= all);
    }
    names
}

/// The tags, in order.
pub fn tag_list(refs: &Vec<RefEntry>) -> (tags: VecDeque<RefEntry>)
    ensures
        refs_view(tags@) == tags_of(refs_view(refs@)),
{
    let ghost all = refs_view(refs@);
    let ghost wanted = |r: Ref| is_tag(r.name);
    let mut tags: VecDeque<RefEntry> = VecDeque::new();
    let mut i: usize = 0;
    proof {
        reveal(Seq::filter);
        assert(refs_view(tags@) =~= all.take(0).filter(wanted));
    }
    while i < refs.len()
        invariant
            i <= refs@.len(),
            all == refs_view(refs@),
            wanted == (|r: Ref| is_tag(r.name)),
            refs_view(tags@) == all.take(i as int).filter(wanted),
        decreases refs@.len() - i,
    {
        let ghost before = tags@;
        proof {
            assert(all.take(i + 1) =~= all.take(i as int).push(all[i as int]));
            all.take(i as int).lemma_filter_push(all[i as int], wanted);
            assert(all[i as int] == refs@[i as int]@);
        }
        if starts_with(refs[i].name.as_str(), "refs/tags/") {
            tags.push_back(refs[i].copy());
            proof {
                assert(wanted(all[i as int]));
                assert(refs_view(tags@) =~= refs_view(before).push(all[i as int]));
            }
        }
        i += 1;
    }
    proof {
        assert(all.take(i as int) =~= all);
    }
    tags
}

/// The branches that a run may move and that do not stand at `commit`, in order.
pub fn movable_heads(refs: &Vec<RefEntry>, commit: Oid) -> (heads: VecDeque<RefEntry>)
    ensures
        refs_view(heads@) == movable(refs_view(refs@), commit),
{
    let ghost all = refs_view(refs@);
    let ghost wanted = |r: Ref| is_movable(r.name) && r.target != commit;
    let mut heads: VecDeque<RefEntry> = VecDeque::new();
    let mut i: usize = 0;
    proof {
        reveal(Seq::filter);
        assert(refs_view(heads@) =~= all.take(0).filter(wanted));
    }
    while i < refs.len()
        invariant
            i <= refs@.len(),
            all == refs_view(refs@),
            wanted == (|r: Ref| is_movable(r.name) && r.target != commit),
            refs_view(heads@) == all.take(i as int).filter(wanted),
        decreases refs@.len() - i,
    {
        let ghost before = heads@;
        proof {
            assert(all.take(i + 1) =~= all.take(i as int).push(all[i as int]));
            all.take(i as int).lemma_filter_push(all[i as int], wanted);
            assert(all[i as int] == refs@[i as int]@);
        }
        let name = refs[i].name.as_str();
        let own = !starts_with(name, "refs/heads/") || starts_with(name, "refs/heads/gto-keep/")
            || starts_with(name, "refs/heads/gto/");
        if !own && refs[i].target != commit {
            heads.push_back(refs[i].copy());
            proof {
                assert(wanted(all[i as int]));
                assert(refs_view(heads@) =~= refs_view(before).push(all[i as int]));
            }
        } else {
            assert(!wanted(all[i as int]));
        }
        i += 1;
    }
    proof {
        assert(all.take(i as int) =~= all);
    }
    heads
}

/// The commits at which branches stand.
fn head_targets(refs: &Vec<RefEntry>) -> (targets: OidMap<bool>)
    ensures
        forall|commit: Oid| #[trigger]
            targets@.contains_key(commit) <==> has_head(refs_view(refs@), commit),
{
    let ghost all = refs_view(refs@);
    let mut targets: OidMap<bool> = OidMap::new();
    let mut i: usize = 0;
    while i < refs.len()
        invariant
            i <= refs@.len(),
            all == refs_view(refs@),
            forall|commit: Oid| #[trigger]
                targets@.contains_key(commit) <==> has_head(all.take(i as int), commit),
        decreases refs@.len() - i,
    {
        let ghost before = targets@;
        if starts_with(refs[i].name.as_str(), "refs/heads/") {
            targets.insert(refs[i].target, true);
        }
        proof {
            assert forall|commit: Oid| #[trigger]
                targets@.contains_key(commit) <==> has_head(all.take(i + 1), commit) by {
                let part = all.take(i as int);
                let next = all.take(i + 1);
                assert(next[i as int] == refs@[i as int]@);
                if has_head(part, commit) {
                    let k = choose|k: int|
                        0 <= k < part.len() && is_head((#[trigger] part[k]).name) && part[k].target
                            == commit;
                    assert(next[k] == part[k]);
                }
                if has_head(next, commit) {
                    let k = choose|k: int|
                        0 <= k < next.len() && is_head((#[trigger] next[k]).name) && next[k].target
                            == commit;
                    if k < i {
                        assert(part[k] == next[k]);
                    }
                }
                assert(before.contains_key(commit) <==> has_head(part, commit));
            }
        }
        i += 1;
    }
    proof {
        assert(all.take(i as int) =~= all);
    }
    targets
}

/// The commits, but for `root`, at which no branch stands, each once.
pub fn unbranched_commits(commits: &Vec<Oid>, refs: &Vec<RefEntry>, root: Oid) -> (missing: VecDeque<
    Oid,
>)
    ensures
        missing@ == unbranched(commits@, refs_view(refs@), root),
{
    let ghost all = refs_view(refs@);
    let ghost wanted = is_unbranched(all, root);
    let taken = head_targets(refs);
    let mut seen: OidMap<bool> = OidMap::new();
    let mut missing: VecDeque<Oid> = VecDeque::new();
    let mut i: usize = 0;
    proof {
        reveal(Seq::filter);
        assert(commits@.take(0).filter(wanted) =~= Seq::<Oid>::empty());
    }
    while i < commits.len()
        invariant
            i <= commits@.len(),
            all == refs_view(refs@),
            wanted == is_unbranched(all, root),
            forall|commit: Oid| #[trigger]
                taken@.contains_key(commit) <==> has_head(all, commit),
            missing@ == distinct(commits@.take(i as int).filter(wanted)),
            forall|commit: Oid| #[trigger]
                seen@.contains_key(commit) <==> missing@.contains(commit),
        decreases commits@.len() - i,
    {
        let commit = commits[i];
        let ghost part = commits@.take(i as int).filter(wanted);
        let ghost before = missing@;
        proof {
            assert(commits@.take(i + 1) =~= commits@.take(i as int).push(commit));
            commits@.take(i as int).lemma_filter_push(commit, wanted);
            assert(part.push(commit).drop_last() =~= part);
        }
        if commit != root && taken.get(commit).is_none() {
            assert(wanted(commit));
            if seen.get(commit).is_none() {
                missing.push_back(commit);
                seen.insert(commit, true);
                proof {
                    assert forall|c: Oid| #[trigger]
                        seen@.contains_key(c) <==> missing@.contains(c) by {
                        if before.contains(c) {
                            let k = choose|k: int| 0 <= k < before.len() && before[k] == c;
                            assert(missing@[k] == c);
                        }
                        assert(missing@[before.len() as int] == commit);
                    }
                }
            }
        } else {
            assert(!wanted(commit));
        }
        i += 1;
    }
    proof {
        assert(commits@.take(i as int) =~= commits@);
    }
    missing
}

/// The temporary branches among the listed references.
pub fn temporary_branch_list(records: &Vec<Result<RefRecord, GitError>>) -> (branches: Vec<String>)
    ensures
        texts_view(branches@) == temporary_branches(records_view(records@)),
{
    let ghost all = records_view(records@);
    let mut branches: Vec<String> = Vec::new();
    let mut i: usize = 0;
    proof {
        assert(texts_view(branches@) =~= Seq::<Text>::empty());
    }
    while i < records.len()
        invariant
            i <= records@.len(),
            all == records_view(records@),
            texts_view(branches@) == temporary_branches(all.take(i as int)),
        decreases records@.len() - i,
    {
        let ghost before = branches@;
        proof {
            assert(all.take(i + 1).drop_last() =~= all.take(i as int));
            assert(all.take(i + 1).last() == record_view(records@[i as int]));
        }
        if let Ok(record) = &records[i] {
            if let Some(name) = &record.name {
                if starts_with(name.as_str(), "refs/heads/gto/") && !starts_with(
                    name.as_str(),
                    "refs/heads/gto-keep/",
                ) {
                    branches.push(trim_start(name.as_str(), "refs/heads/"));
                    proof {
                        assert(texts_view(branches@) =~= texts_view(before).push(
                            trimmed(name@, "refs/heads/"@),
                        ));
                    }
                }
            }
        }
        i += 1;
    }
    proof {
        assert(all.take(i as int) =~= all);
    }
    branches
}

} // verus!
