//! What the branches of a run are called.
use vstd::prelude::*;
use crate::laws::soundness::{lemma_temporary_branches, lemma_temporary_trimmed};
use crate::oid::{hex, hex_injective, Oid};
use crate::refs::{
    is_head, is_keep, is_movable, is_tag, is_tag_stand_in, is_temporary, keep_branch, keep_ref,
    temporary_branch, temporary_branches, temporary_ref, Failure, Record,
};
use crate::text::Text;

verus! {

proof fn lemma_prefix(prefix: Text, rest: Text)
    ensures
        prefix.is_prefix_of(prefix + rest),
{
    assert((prefix + rest).subrange(0, prefix.len() as int) =~= prefix);
}

/// The temporary branch for a commit counts as temporary, and the branch that keeps a commit
/// counts as one that keeps commits and not as temporary. A run moves neither.
pub proof fn own_branches_are_recognized(commit: Oid)
    ensures
        is_temporary(temporary_ref(commit)),
        is_keep(keep_ref(commit)),
        !is_temporary(keep_ref(commit)),
        !is_movable(temporary_ref(commit)),
        !is_movable(keep_ref(commit)),
{
    lemma_prefix("refs/heads/gto/"@, hex(commit.bytes@));
    lemma_prefix("refs/heads/gto-keep/"@, hex(commit.bytes@));
    if is_temporary(keep_ref(commit)) {
        lemma_temporary_trimmed(keep_ref(commit));
    }
}

/// Different commits have different branches.
pub proof fn own_branches_are_apart(a: Oid, b: Oid)
    requires
        temporary_branch(a) == temporary_branch(b) || keep_branch(a) == keep_branch(b),
    ensures
        a == b,
{
    let (x, y) = (hex(a.bytes@), hex(b.bytes@));
    if temporary_branch(a) == temporary_branch(b) {
        "gto/"@.lemma_concat_injective(x, y);
    } else {
        "gto-keep/"@.lemma_concat_injective(x, y);
    }
    hex_injective(a, b);
}

/// The clean-up finds a temporary branch under the name that it has without its prefix.
pub proof fn clean_up_finds_temporary_branches(
    records: Seq<Result<Record, Failure>>,
    i: int,
    name: Text,
)
    requires
        0 <= i < records.len(),
        records[i] is Ok,
        records[i]->Ok_0.name == Some(name),
        is_temporary(name),
    ensures
        temporary_branches(records).contains(name.skip(11)),
    decreases records.len(),
{
    lemma_temporary_trimmed(name);
    let now = temporary_branches(records);
    let before = temporary_branches(records.drop_last());
    if i == records.len() - 1 {
        assert(now == before.push(name.skip(11)));
        assert(now[before.len() as int] == name.skip(11));
    } else {
        clean_up_finds_temporary_branches(records.drop_last(), i, name);
        let k = choose|k: int| 0 <= k < before.len() && before[k] == name.skip(11);
        assert(now[k] == name.skip(11));
    }
}

/// The clean-up finds the temporary branch of a commit under the name by which it was made, and
/// leaves the branch that keeps the commit alone.
pub proof fn clean_up_undoes_branching(
    records: Seq<Result<Record, Failure>>,
    i: int,
    commit: Oid,
)
    requires
        0 <= i < records.len(),
        records[i] is Ok,
        records[i]->Ok_0.name == Some(temporary_ref(commit)),
    ensures
        temporary_branches(records).contains(temporary_branch(commit)),
        !temporary_branches(records).contains(keep_branch(commit)),
{
    own_branches_are_recognized(commit);
    let name = temporary_ref(commit);
    clean_up_finds_temporary_branches(records, i, name);
    assert(name.skip(11) =~= temporary_branch(commit)) by {
        reveal_strlit("refs/heads/gto/");
        reveal_strlit("gto/");
        assert("refs/heads/gto/"@.skip(11) =~= "gto/"@);
    }
    lemma_temporary_branches(records);
    assert(!"gto/"@.is_prefix_of(keep_branch(commit))) by {
        reveal_strlit("gto/");
        reveal_strlit("gto-keep/");
        if "gto/"@.is_prefix_of(keep_branch(commit)) {
            assert(keep_branch(commit).take(4)[3] == "gto/"@[3]);
        }
    }
}

/// Names are told apart by how they begin: a branch is under `refs/heads/` and a tag under
/// `refs/tags/`; of the branches, those under `gto/`, `gto-keep/` and `gto-tag-tmp/` are set apart,
/// and a run may move those that are under neither of the first two. The branches that a run makes
/// for a commit are under the first two, by the digits of the commit.
pub proof fn names_are_told_by_how_they_begin(name: Text, commit: Oid)
    ensures
        is_head(name) <==> "refs/heads/"@.is_prefix_of(name),
        is_tag(name) <==> "refs/tags/"@.is_prefix_of(name),
        is_temporary(name) <==> "refs/heads/gto/"@.is_prefix_of(name),
        is_keep(name) <==> "refs/heads/gto-keep/"@.is_prefix_of(name),
        is_tag_stand_in(name) <==> "refs/heads/gto-tag-tmp/"@.is_prefix_of(name),
        is_movable(name) <==> "refs/heads/"@.is_prefix_of(name)
            && !"refs/heads/gto-keep/"@.is_prefix_of(name) && !"refs/heads/gto/"@.is_prefix_of(
            name,
        ),
        temporary_ref(commit) == "refs/heads/gto/"@ + hex(commit.bytes@),
        temporary_branch(commit) == "gto/"@ + hex(commit.bytes@),
        keep_ref(commit) == "refs/heads/gto-keep/"@ + hex(commit.bytes@),
        keep_branch(commit) == "gto-keep/"@ + hex(commit.bytes@),
{
}

} // verus!
