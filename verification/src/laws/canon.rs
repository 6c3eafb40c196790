//! What branches, commits and their ranks are, said in full.
use vstd::prelude::*;
use crate::canonical::{
    canonicals, every_commit_has_a_canonical, ids, known, lemma_known, CommitInfo,
};
use crate::laws::converging::covers;
use crate::laws::preserving::{infos_ok, lemma_depth_fits, lemma_infos};
use crate::laws::world::{is_walked, Refs, World};
use crate::oid::Oid;
use crate::order::the_first_difference_decides;
use crate::refs::{is_head, is_tag};
use crate::text::Text;

verus! {

/// The first id is smaller at the first byte where the two differ.
pub open spec fn id_less(a: Oid, b: Oid) -> bool {
    exists|i: int|
        0 <= i < 20 && #[trigger] a.bytes@[i] < b.bytes@[i] && forall|k: int|
            0 <= k < i ==> a.bytes@[k] == b.bytes@[k]
}

impl World {
    /// The first commit has fewer commits between it and the root; or as many, and it is older; or
    /// it is as old as well, and has the smaller id.
    pub open spec fn precedes(self, a: Oid, b: Oid) -> bool {
        let (x, y) = (
            (self.reach)(a).difference((self.reach)(self.root)).len(),
            (self.reach)(b).difference((self.reach)(self.root)).len(),
        );
        ||| x < y
        ||| x == y && (self.date)(a) < (self.date)(b)
        ||| x == y && (self.date)(a) == (self.date)(b) && id_less(a, b)
    }

    /// The commit is the root, or a branch reaches it and the root does not. Branches under
    /// `gto-tag-tmp/` do not count.
    pub open spec fn is_in_play(self, refs: Refs, commit: Oid) -> bool {
        commit == self.root || {
            &&& !(self.reach)(self.root).contains(commit)
            &&& exists|name: Text| #[trigger]
                refs.contains_key(name) && "refs/heads/"@.is_prefix_of(name)
                    && !"refs/heads/gto-tag-tmp/"@.is_prefix_of(name) && (self.reach)(
                    refs[name],
                ).contains(commit)
        }
    }

    /// `canonical` stands for `commit`: it precedes all other commits with its tree.
    pub open spec fn stands_for(self, refs: Refs, canonical: Oid, commit: Oid) -> bool {
        &&& self.is_in_play(refs, canonical)
        &&& (self.tree)(canonical) == (self.tree)(commit)
        &&& forall|other: Oid| #[trigger]
            self.is_in_play(refs, other) && (self.tree)(other) == (self.tree)(commit) && other
                != canonical ==> self.precedes(canonical, other)
    }
}

pub(crate) proof fn lemma_id_less(a: Oid, b: Oid)
    ensures
        id_less(a, b) <==> a.less(b),
{
    if id_less(a, b) {
        let i = choose|i: int|
            0 <= i < 20 && #[trigger] a.bytes@[i] < b.bytes@[i] && forall|k: int|
                0 <= k < i ==> a.bytes@[k] == b.bytes@[k];
        the_first_difference_decides(a.bytes@, b.bytes@, i);
    }
    if a.less(b) {
        Oid::less_is_strict_total_order(a, b, b);
        if forall|k: int| 0 <= k < 20 ==> a.bytes@[k] == b.bytes@[k] {
            assert(a.bytes@ =~= b.bytes@);
            assert(a.bytes =~= b.bytes);
        }
        let j = choose|j: int| 0 <= j < 20 && a.bytes@[j] != b.bytes@[j];
        lemma_first_difference(a, b, j);
        let i = choose|i: int|
            0 <= i < 20 && #[trigger] a.bytes@[i] != b.bytes@[i] && forall|k: int|
                0 <= k < i ==> a.bytes@[k] == b.bytes@[k];
        the_first_difference_decides(a.bytes@, b.bytes@, i);
        assert(a.bytes@[i] < b.bytes@[i]);
    }
}

proof fn lemma_first_difference(a: Oid, b: Oid, j: int)
    requires
        0 <= j < 20,
        a.bytes@[j] != b.bytes@[j],
    ensures
        exists|i: int|
            0 <= i < 20 && #[trigger] a.bytes@[i] != b.bytes@[i] && forall|k: int|
                0 <= k < i ==> a.bytes@[k] == b.bytes@[k],
    decreases j,
{
    if exists|k: int| 0 <= k < j && #[trigger] a.bytes@[k] != b.bytes@[k] {
        let k = choose|k: int| 0 <= k < j && #[trigger] a.bytes@[k] != b.bytes@[k];
        lemma_first_difference(a, b, k);
    } else {
        assert(a.bytes@[j] != b.bytes@[j]);
    }
}

pub(crate) proof fn lemma_precedes(world: World, a: Oid, b: Oid)
    requires
        world.wf(),
    ensures
        world.precedes(a, b) <==> world.fact(a).ranks_before(world.fact(b)),
{
    lemma_depth_fits(world, a);
    lemma_depth_fits(world, b);
    lemma_id_less(a, b);
}

pub(crate) proof fn lemma_in_play(world: World, refs: Refs, c: Oid)
    ensures
        world.is_in_play(refs, c) <==> world.is_in_scope(refs, c),
{
    if world.is_in_play(refs, c) && c != world.root {
        let n = choose|n: Text| #[trigger]
            refs.contains_key(n) && "refs/heads/"@.is_prefix_of(n)
                && !"refs/heads/gto-tag-tmp/"@.is_prefix_of(n) && (world.reach)(refs[n]).contains(
                c,
            );
        crate::laws::world::lemma_heads_are_no_tags(n);
        assert(refs.contains_key(n) && is_walked(n) && is_head(n) && world.reaches(refs[n], c));
    }
    if world.is_in_walk(refs, c) {
        let n = choose|n: Text| #[trigger]
            refs.contains_key(n) && is_walked(n) && (is_head(n) || is_tag(n)) && world.reaches(
                refs[n],
                c,
            );
        assert(refs.contains_key(n));
    }
}

/// A commit for which another stands is a duplicate.
pub(crate) proof fn lemma_stands_for(world: World, refs: Refs, canonical: Oid, commit: Oid)
    requires
        world.wf(),
        world.is_in_play(refs, commit),
        world.stands_for(refs, canonical, commit),
        canonical != commit,
    ensures
        world.is_duplicate(refs, commit),
{
    lemma_in_play(world, refs, commit);
    lemma_in_play(world, refs, canonical);
    lemma_precedes(world, canonical, commit);
    assert(world.precedes(canonical, commit));
    assert(!world.is_best(refs, commit));
    if commit == world.root {
        assert(world.reaches(world.root, world.root));
        let none = world.range(world.root, world.root);
        assert(none =~= Set::empty());
        lemma_depth_fits(world, canonical);
        assert(world.reaches(canonical, canonical));
        let range = world.range(canonical, world.root);
        assert(range.contains(canonical));
        assert(range.len() > 0) by {
            if range.len() == 0 {
                assert(range =~= Set::empty());
            }
        }
    }
}

/// Only one commit stands for another.
pub proof fn one_commit_stands_for_another(world: World, refs: Refs, a: Oid, b: Oid, commit: Oid)
    requires
        world.wf(),
        world.stands_for(refs, a, commit),
        world.stands_for(refs, b, commit),
    ensures
        a == b,
{
    if a != b {
        lemma_precedes(world, a, b);
        lemma_precedes(world, b, a);
        assert(world.precedes(a, b));
        assert(world.precedes(b, a));
        Oid::less_is_strict_total_order(a, b, a);
    }
}

/// The canonical commits of surveyed commits stand for them.
pub(crate) proof fn lemma_canonicals(world: World, refs: Refs, infos: Seq<CommitInfo>, c: Oid)
    requires
        world.wf(),
        infos_ok(world, infos),
        covers(world, refs, ids(infos)),
        canonicals(infos).contains_key(c),
    ensures
        world.stands_for(refs, canonicals(infos)[c], c),
{
    lemma_infos(world, infos);
    lemma_known(infos);
    let k = canonicals(infos)[c];
    every_commit_has_a_canonical(infos, c);
    assert(ids(infos).contains(c));
    assert(known(infos).contains_key(c));
    assert(ids(infos).contains(k));
    assert(known(infos).contains_key(k));
    assert(world.is_in_scope(refs, k));
    lemma_in_play(world, refs, k);
    lemma_in_play(world, refs, c);
    assert(world.is_in_scope(refs, c));
    assert forall|d: Oid| #[trigger]
        world.is_in_play(refs, d) && (world.tree)(d) == (world.tree)(c) && d
            != k implies world.precedes(k, d) by {
        lemma_in_play(world, refs, d);
        assert(ids(infos).contains(d)) by {
            if world.is_in_walk(refs, d) {
            } else if world.is_in_walk(refs, c) {
                assert(ids(infos).contains(world.root));
            } else {
                assert(d == c);
            }
        }
        assert(known(infos).contains_key(d));
        assert(!known(infos)[d].ranks_before(known(infos)[k]));
        lemma_precedes(world, d, k);
        lemma_precedes(world, k, d);
        Oid::less_is_strict_total_order(d, k, k);
    }
}

} // verus!
