//! What a run makes of listed references and of the commits of a walk, and in what order.
use vstd::prelude::*;
use vstd::utf8::encode_utf8;
use crate::canonical::{distinct, lemma_distinct};
use crate::laws::world::{lemma_shows, shows};
use crate::oid::Oid;
use crate::order::bytes_less;
use crate::refs::{
    counts, entry_of, has_head, is_movable, is_tag, is_tag_stand_in, is_unbranched, local_refs,
    local_refs_are_sorted, movable, name_less, stands_for_name, tags_of,
    the_last_record_of_a_name_counts, unbranched, walk_names, Failure, Record, Ref,
};
use crate::text::Text;
use crate::walk::{candidates, is_moved, other_than, others, with_root, Candidate};
use crate::model::{print_left, Effect};

verus! {

/// The places go up, and are those of the items that are wanted.
pub open spec fn selects<A>(items: Seq<A>, at: Seq<int>, wanted: spec_fn(A) -> bool) -> bool {
    &&& forall|i: int, j: int| 0 <= i < j < at.len() ==> at[i] < at[j]
    &&& forall|k: int| #[trigger]
        at.contains(k) <==> 0 <= k < items.len() && wanted(items[k])
}

/// The items at the places, in order.
pub open spec fn picked<A>(items: Seq<A>, at: Seq<int>) -> Seq<A> {
    at.map_values(|k: int| items[k])
}

proof fn lemma_filter<A>(items: Seq<A>, wanted: spec_fn(A) -> bool) -> (at: Seq<int>)
    ensures
        selects(items, at, wanted),
        items.filter(wanted) == picked(items, at),
    decreases items.len(),
{
    reveal(Seq::filter);
    if items.len() == 0 {
        let at = Seq::<int>::empty();
        assert(items.filter(wanted) =~= picked(items, at));
        at
    } else {
        let front = items.drop_last();
        let before = lemma_filter(front, wanted);
        let last = items.len() - 1;
        assert forall|i: int| 0 <= i < before.len() implies 0 <= #[trigger] before[i] < last by {
            assert(before.contains(before[i]));
        }
        let at = if wanted(items.last()) {
            before.push(last)
        } else {
            before
        };
        assert forall|k: int| #[trigger]
            at.contains(k) <==> 0 <= k < items.len() && wanted(items[k]) by {
            if at.contains(k) {
                let i = choose|i: int| 0 <= i < at.len() && at[i] == k;
                if i < before.len() {
                    assert(before[i] == k);
                    assert(before.contains(k));
                    assert(front[k] == items[k]);
                }
            }
            if 0 <= k < items.len() && wanted(items[k]) {
                if k < last {
                    assert(front[k] == items[k]);
                    assert(before.contains(k));
                    let i = choose|i: int| 0 <= i < before.len() && before[i] == k;
                    assert(at[i] == k);
                } else {
                    assert(at[before.len() as int] == k);
                }
            }
        }
        assert(items.filter(wanted) =~= picked(items, at));
        at
    }
}

/// Where all records can be read, a listing gives the branches and tags: each at the commit that its
/// record names, or else at the one to which it leads, and by the last record of its name that tells
/// of one. They come in the order of the bytes of their names.
pub proof fn listings_give_branches_and_tags(
    records: Seq<Result<Record, Failure>>,
    name: Text,
    commit: Oid,
)
    requires
        forall|i: int| 0 <= i < records.len() ==> (#[trigger] records[i]) is Ok,
    ensures
        local_refs(records) is Ok,
        local_refs(records)->Ok_0.contains(Ref { name, target: commit }) <==> exists|i: int|
            #![trigger records[i]]
            {
                &&& 0 <= i < records.len()
                &&& shows(records[i]->Ok_0, name, commit)
                &&& forall|j: int, other: Oid|
                    i < j < records.len() ==> !#[trigger] shows(records[j]->Ok_0, name, other)
            },
        forall|i: int, j: int|
            0 <= i < j < local_refs(records)->Ok_0.len() ==> bytes_less(
                encode_utf8((#[trigger] local_refs(records)->Ok_0[i]).name),
                encode_utf8((#[trigger] local_refs(records)->Ok_0[j]).name),
            ),
{
    let r = Ref { name, target: commit };
    the_last_record_of_a_name_counts(records, r);
    local_refs_are_sorted(records);
    let found = local_refs(records)->Ok_0;
    assert forall|i: int, j: int| 0 <= i < j < found.len() implies bytes_less(
        encode_utf8((#[trigger] found[i]).name),
        encode_utf8((#[trigger] found[j]).name),
    ) by {
        assert(name_less(found[i].name, found[j].name));
    }
    assert forall|j: int| 0 <= j < records.len() implies (stands_for_name(
        #[trigger] records[j],
        name,
    ) <==> exists|other: Oid| #[trigger] shows(records[j]->Ok_0, name, other)) by {
        assert(records[j] is Ok);
        if stands_for_name(records[j], name) {
            let entry = entry_of(records[j]->Ok_0)->0;
            lemma_shows(records[j]->Ok_0, name, entry.target);
            assert(shows(records[j]->Ok_0, name, entry.target));
        }
        if exists|other: Oid| #[trigger] shows(records[j]->Ok_0, name, other) {
            let other = choose|other: Oid| #[trigger] shows(records[j]->Ok_0, name, other);
            lemma_shows(records[j]->Ok_0, name, other);
        }
    }
    if local_refs(records)->Ok_0.contains(r) {
        let i = choose|i: int| counts(records, i, r);
        lemma_shows(records[i]->Ok_0, name, commit);
        assert forall|j: int, other: Oid| i < j < records.len() implies !#[trigger] shows(
            records[j]->Ok_0,
            name,
            other,
        ) by {
            assert(!stands_for_name(records[j], name));
        }
        assert(records[i] is Ok);
    }
    if exists|i: int|
        #![trigger records[i]]
        {
            &&& 0 <= i < records.len()
            &&& shows(records[i]->Ok_0, name, commit)
            &&& forall|j: int, other: Oid|
                i < j < records.len() ==> !#[trigger] shows(records[j]->Ok_0, name, other)
        } {
        let i = choose|i: int|
            #![trigger records[i]]
            {
                &&& 0 <= i < records.len()
                &&& shows(records[i]->Ok_0, name, commit)
                &&& forall|j: int, other: Oid|
                    i < j < records.len() ==> !#[trigger] shows(records[j]->Ok_0, name, other)
            };
        lemma_shows(records[i]->Ok_0, name, commit);
        assert(counts(records, i, r));
    }
}

/// A walk starts from the branches, in the order of the listing; those under `gto-tag-tmp/` are left
/// out, and so are tags.
pub proof fn walks_start_from_branches(refs: Seq<Ref>) -> (at: Seq<int>)
    ensures
        selects(
            refs,
            at,
            |r: Ref|
                !"refs/heads/gto-tag-tmp/"@.is_prefix_of(r.name) && !"refs/tags/"@.is_prefix_of(
                    r.name,
                ),
        ),
        walk_names(refs) == picked(refs, at).map_values(|r: Ref| r.name),
{
    lemma_filter(refs, |r: Ref| !is_tag_stand_in(r.name) && !is_tag(r.name))
}

/// The branches that may have to move from a commit are those under `refs/heads/` that are not at it
/// and are under neither `gto-keep/` nor `gto/`, in the order of the listing.
pub proof fn branches_may_move_in_order(refs: Seq<Ref>, commit: Oid) -> (at: Seq<int>)
    ensures
        selects(
            refs,
            at,
            |r: Ref|
                "refs/heads/"@.is_prefix_of(r.name) && !"refs/heads/gto-keep/"@.is_prefix_of(r.name)
                    && !"refs/heads/gto/"@.is_prefix_of(r.name) && r.target != commit,
        ),
        movable(refs, commit) == picked(refs, at),
{
    lemma_filter(refs, |r: Ref| is_movable(r.name) && r.target != commit)
}

/// The tags among references are those under `refs/tags/`, in order.
pub proof fn tags_come_in_order(refs: Seq<Ref>) -> (at: Seq<int>)
    ensures
        selects(refs, at, |r: Ref| "refs/tags/"@.is_prefix_of(r.name)),
        tags_of(refs) == picked(refs, at),
{
    lemma_filter(refs, |r: Ref| is_tag(r.name))
}

/// The tags at duplicates, in order.
pub(crate) proof fn tags_at_duplicates(refs: Seq<Ref>, duplicates: Map<Oid, Oid>) -> (at: Seq<int>)
    ensures
        selects(
            refs,
            at,
            |r: Ref| "refs/tags/"@.is_prefix_of(r.name) && duplicates.contains_key(r.target),
        ),
        print_left(tags_of(refs), duplicates) == at.map_values(
            |k: int| Effect::Print(refs[k].name + " left"@),
        ),
{
    let stuck = |tag: Ref| duplicates.contains_key(tag.target);
    let tags = tags_of(refs);
    let outer = lemma_filter(refs, |r: Ref| is_tag(r.name));
    let inner = lemma_filter(tags, stuck);
    assert forall|i: int| 0 <= i < inner.len() implies 0 <= #[trigger] inner[i] < outer.len() by {
        assert(inner.contains(inner[i]));
    }
    let at = picked(outer, inner);
    assert forall|i: int, j: int| 0 <= i < j < at.len() implies at[i] < at[j] by {
        assert(inner[i] < inner[j]);
    }
    let wanted = |r: Ref| "refs/tags/"@.is_prefix_of(r.name) && duplicates.contains_key(r.target);
    assert forall|k: int| #[trigger]
        at.contains(k) <==> 0 <= k < refs.len() && wanted(refs[k]) by {
        if at.contains(k) {
            let i = choose|i: int| 0 <= i < at.len() && at[i] == k;
            assert(inner.contains(inner[i]));
            assert(outer[inner[i]] == k);
            assert(outer.contains(k));
            assert(tags[inner[i]] == refs[k]);
        }
        if 0 <= k < refs.len() && wanted(refs[k]) {
            assert(outer.contains(k));
            let j = choose|j: int| 0 <= j < outer.len() && outer[j] == k;
            assert(tags[j] == refs[k]);
            assert(inner.contains(j));
            let i = choose|i: int| 0 <= i < inner.len() && inner[i] == j;
            assert(at[i] == k);
        }
    }
    assert(print_left(tags, duplicates) =~= at.map_values(
        |k: int| Effect::Print(refs[k].name + " left"@),
    ));
    at
}

/// The duplicates that a pass looks at are the commits of the walk, but for the root, that have
/// another commit as their canonical one, each with that one, and in the order of the walk.
pub proof fn duplicates_come_in_the_order_of_the_walk(
    commits: Seq<Oid>,
    chosen: Map<Oid, Oid>,
    root: Oid,
) -> (at: Seq<int>)
    ensures
        selects(commits, at, |c: Oid| c != root && chosen.contains_key(c) && chosen[c] != c),
        candidates(commits, chosen, root) == at.map_values(
            |k: int| Candidate { commit: commits[k], canonical: chosen[commits[k]] },
        ),
{
    let rest = others(commits, root);
    let outer = lemma_filter(commits, other_than(root));
    let inner = lemma_filter(rest, is_moved(chosen));
    assert forall|i: int| 0 <= i < inner.len() implies 0 <= #[trigger] inner[i] < outer.len() by {
        assert(inner.contains(inner[i]));
    }
    let at = picked(outer, inner);
    assert forall|i: int, j: int| 0 <= i < j < at.len() implies at[i] < at[j] by {
        assert(inner[i] < inner[j]);
    }
    let wanted = |c: Oid| c != root && chosen.contains_key(c) && chosen[c] != c;
    assert forall|k: int| #[trigger]
        at.contains(k) <==> 0 <= k < commits.len() && wanted(commits[k]) by {
        if at.contains(k) {
            let i = choose|i: int| 0 <= i < at.len() && at[i] == k;
            assert(inner.contains(inner[i]));
            assert(outer[inner[i]] == k);
            assert(outer.contains(k));
            assert(rest[inner[i]] == commits[k]);
        }
        if 0 <= k < commits.len() && wanted(commits[k]) {
            assert(outer.contains(k));
            let j = choose|j: int| 0 <= j < outer.len() && outer[j] == k;
            assert(rest[j] == commits[k]);
            assert(inner.contains(j));
            let i = choose|i: int| 0 <= i < inner.len() && inner[i] == j;
            assert(at[i] == k);
        }
    }
    assert(candidates(commits, chosen, root) =~= at.map_values(
        |k: int| Candidate { commit: commits[k], canonical: chosen[commits[k]] },
    ));
    at
}

/// The places of first occurrences.
proof fn lemma_firsts(items: Seq<Oid>) -> (at: Seq<int>)
    ensures
        forall|i: int, j: int| 0 <= i < j < at.len() ==> at[i] < at[j],
        forall|k: int| #[trigger]
            at.contains(k) <==> 0 <= k < items.len() && !items.take(k).contains(items[k]),
        distinct(items) == picked(items, at),
    decreases items.len(),
{
    if items.len() == 0 {
        let at = Seq::<int>::empty();
        assert(distinct(items) =~= picked(items, at));
        at
    } else {
        let front = items.drop_last();
        let before = lemma_firsts(front);
        let last = items.len() - 1;
        lemma_distinct(front);
        assert(items.take(last) =~= front);
        assert forall|i: int| 0 <= i < before.len() implies 0 <= #[trigger] before[i] < last by {
            assert(before.contains(before[i]));
        }
        let at = if front.contains(items.last()) {
            before
        } else {
            before.push(last)
        };
        assert forall|k: int| #[trigger]
            at.contains(k) <==> 0 <= k < items.len() && !items.take(k).contains(items[k]) by {
            if 0 <= k < last {
                assert(items.take(k) =~= front.take(k));
                assert(front[k] == items[k]);
            }
            if at.contains(k) {
                let i = choose|i: int| 0 <= i < at.len() && at[i] == k;
                if i < before.len() {
                    assert(before[i] == k);
                    assert(before.contains(k));
                }
            }
            if 0 <= k < items.len() && !items.take(k).contains(items[k]) {
                if k < last {
                    assert(before.contains(k));
                    let i = choose|i: int| 0 <= i < before.len() && before[i] == k;
                    assert(at[i] == k);
                } else {
                    assert(at[before.len() as int] == k);
                }
            }
        }
        assert(distinct(items) =~= picked(items, at));
        at
    }
}

/// The commits that get temporary branches are those at which no branch stands, but for the root,
/// each once, in the order in which they first come.
pub proof fn branches_are_made_in_order(commits: Seq<Oid>, refs: Seq<Ref>, root: Oid) -> (at: Seq<
    int,
>)
    ensures
        forall|i: int, j: int| 0 <= i < j < at.len() ==> at[i] < at[j],
        forall|k: int| #[trigger]
            at.contains(k) <==> {
                &&& 0 <= k < commits.len()
                &&& commits[k] != root
                &&& !commits.take(k).contains(commits[k])
                &&& forall|i: int|
                    0 <= i < refs.len() && "refs/heads/"@.is_prefix_of((#[trigger] refs[i]).name)
                        ==> refs[i].target != commits[k]
            },
        unbranched(commits, refs, root) == picked(commits, at),
{
    let wanted = is_unbranched(refs, root);
    let kept = commits.filter(wanted);
    let outer = lemma_filter(commits, wanted);
    let inner = lemma_firsts(kept);
    assert forall|i: int| 0 <= i < inner.len() implies 0 <= #[trigger] inner[i] < outer.len() by {
        assert(inner.contains(inner[i]));
    }
    assert forall|j: int| 0 <= j < outer.len() implies 0 <= #[trigger] outer[j] < commits.len()
        && wanted(commits[outer[j]]) && kept[j] == commits[outer[j]] by {
        assert(outer.contains(outer[j]));
    }
    let at = picked(outer, inner);
    assert forall|i: int, j: int| 0 <= i < j < at.len() implies at[i] < at[j] by {
        assert(inner[i] < inner[j]);
    }
    assert forall|k: int| #[trigger]
        at.contains(k) <==> {
            &&& 0 <= k < commits.len()
            &&& commits[k] != root
            &&& !commits.take(k).contains(commits[k])
            &&& forall|i: int|
                0 <= i < refs.len() && "refs/heads/"@.is_prefix_of((#[trigger] refs[i]).name)
                    ==> refs[i].target != commits[k]
        } by {
        if at.contains(k) {
            let i = choose|i: int| 0 <= i < at.len() && at[i] == k;
            let j = inner[i];
            assert(inner.contains(j));
            assert(outer[j] == k);
            if commits.take(k).contains(commits[k]) {
                let m = choose|m: int| 0 <= m < k && commits.take(k)[m] == commits[k];
                assert(commits[m] == commits[k]);
                assert(outer.contains(m));
                let n = choose|n: int| 0 <= n < outer.len() && outer[n] == m;
                assert(n < j) by {
                    if j < n {
                        assert(outer[j] < outer[n]);
                    }
                }
                assert(kept.take(j)[n] == kept[j]);
                assert(kept.take(j).contains(kept[j]));
            }
            assert(!has_head(refs, commits[k]));
        }
        if 0 <= k < commits.len() && commits[k] != root && !commits.take(k).contains(commits[k])
            && forall|i: int|
            0 <= i < refs.len() && "refs/heads/"@.is_prefix_of((#[trigger] refs[i]).name)
                ==> refs[i].target != commits[k] {
            assert(!has_head(refs, commits[k]));
            assert(outer.contains(k));
            let j = choose|j: int| 0 <= j < outer.len() && outer[j] == k;
            if kept.take(j).contains(kept[j]) {
                let n = choose|n: int| 0 <= n < j && kept.take(j)[n] == kept[j];
                assert(outer[n] < outer[j]);
                assert(kept[n] == kept[j]);
                assert(commits.take(k)[outer[n]] == commits[k]);
            }
            assert(inner.contains(j));
            let i = choose|i: int| 0 <= i < inner.len() && inner[i] == j;
            assert(at[i] == k);
        }
    }
    assert(unbranched(commits, refs, root) =~= picked(commits, at));
    at
}

/// The root comes first, unless the walk has brought it up; the other commits stay as they are.
pub proof fn the_root_is_among_the_commits(walked: Seq<Oid>, root: Oid)
    ensures
        walked.contains(root) ==> with_root(walked, root) == walked,
        !walked.contains(root) ==> with_root(walked, root) == seq![root] + walked,
{
    assert(walked.insert(0, root) =~= seq![root] + walked);
}

} // verus!
