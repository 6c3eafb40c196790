//! Commits that share a tree, and the one that stands for them.
use vstd::prelude::*;
use crate::oid::Oid;
use crate::oid_map::OidMap;

verus! {

/// What is known of a commit: its tree, the number of commits on the way to it from the root of
/// the run, and its date in seconds.
#[derive(Clone, Copy, Debug)]
pub struct CommitInfo {
    pub tree_id: Oid,
    pub depth: usize,
    pub cdate: i64,
    pub oid: Oid,
}

impl CommitInfo {
    /// A commit ranks before another when it is less deep, or as deep and older, or as deep and
    /// as old with the smaller id.
    pub open spec fn ranks_before(self, other: CommitInfo) -> bool {
        ||| self.depth < other.depth
        ||| self.depth == other.depth && self.cdate < other.cdate
        ||| self.depth == other.depth && self.cdate == other.cdate && self.oid.less(other.oid)
    }

    /// Whether this commit ranks before `other`.
    pub fn is_before(&self, other: &CommitInfo) -> (before: bool)
        ensures
            before == self.ranks_before(*other),
    {
        if self.depth != other.depth {
            self.depth < other.depth
        } else if self.cdate != other.cdate {
            self.cdate < other.cdate
        } else {
            self.oid.is_less(&other.oid)
        }
    }
}

/// The ids of the commits.
pub open spec fn ids(infos: Seq<CommitInfo>) -> Seq<Oid> {
    infos.map_values(|info: CommitInfo| info.oid)
}

/// What was last learned of each commit.
pub open spec fn known(infos: Seq<CommitInfo>) -> Map<Oid, CommitInfo>
    decreases infos.len(),
{
    if infos.len() == 0 {
        Map::empty()
    } else {
        known(infos.drop_last()).insert(infos.last().oid, infos.last())
    }
}

/// The tree of a commit.
pub open spec fn tree_of(infos: Seq<CommitInfo>, commit: Oid) -> Oid {
    known(infos)[commit].tree_id
}

/// `canonical` is, of the commits with the tree of `commit`, one that no other ranks before.
pub open spec fn is_canonical(infos: Seq<CommitInfo>, commit: Oid, canonical: Oid) -> bool {
    &&& ids(infos).contains(canonical)
    &&& tree_of(infos, canonical) == tree_of(infos, commit)
    &&& forall|other: Oid| #[trigger]
        ids(infos).contains(other) && tree_of(infos, other) == tree_of(infos, commit)
            ==> !known(infos)[other].ranks_before(known(infos)[canonical])
}

/// The canonical commit of each commit.
pub open spec fn canonicals(infos: Seq<CommitInfo>) -> Map<Oid, Oid> {
    Map::new(
        |commit: Oid| ids(infos).contains(commit),
        |commit: Oid| choose|canonical: Oid| is_canonical(infos, commit, canonical),
    )
}

/// The commits that are not canonical themselves, each with its canonical commit.
pub open spec fn duplicates(infos: Seq<CommitInfo>) -> Map<Oid, Oid> {
    Map::new(
        |commit: Oid|
            ids(infos).contains(commit) && canonicals(infos)[commit] != commit,
        |commit: Oid| canonicals(infos)[commit],
    )
}

/// The ids in the order of their first occurrences, each once.
pub open spec fn distinct(items: Seq<Oid>) -> Seq<Oid>
    decreases items.len(),
{
    if items.len() == 0 {
        Seq::empty()
    } else {
        let before = distinct(items.drop_last());
        if before.contains(items.last()) {
            before
        } else {
            before.push(items.last())
        }
    }
}

/// The trees of the commits, in the order in which the commits bring them up.
pub open spec fn trees(infos: Seq<CommitInfo>) -> Seq<Oid> {
    distinct(ids(infos).map_values(|commit: Oid| tree_of(infos, commit)))
}

/// The commits with a given tree, in order.
pub open spec fn members(infos: Seq<CommitInfo>, tree: Oid) -> Seq<Oid> {
    ids(infos).filter(|commit: Oid| tree_of(infos, commit) == tree)
}

/// The commits grouped by tree.
pub open spec fn groups(infos: Seq<CommitInfo>) -> Seq<Seq<Oid>> {
    trees(infos).map_values(|tree: Oid| members(infos, tree))
}

/// The members of the groups of more than one, group by group.
pub open spec fn shared_of(groups: Seq<Seq<Oid>>) -> Seq<Oid>
    decreases groups.len(),
{
    if groups.len() == 0 {
        Seq::empty()
    } else if groups.last().len() > 1 {
        shared_of(groups.drop_last()) + groups.last()
    } else {
        shared_of(groups.drop_last())
    }
}

pub(crate) proof fn lemma_distinct(items: Seq<Oid>)
    ensures
        distinct(items).no_duplicates(),
        forall|x: Oid| #[trigger] distinct(items).contains(x) <==> items.contains(x),
        distinct(items).len() <= items.len(),
    decreases items.len(),
{
    if items.len() > 0 {
        let front = items.drop_last();
        lemma_distinct(front);
        assert forall|x: Oid| #[trigger] distinct(items).contains(x) <==> items.contains(x) by {
            if items.contains(x) {
                let i = choose|i: int| 0 <= i < items.len() && items[i] == x;
                if i < front.len() {
                    assert(front[i] == x);
                    assert(distinct(front).contains(x));
                    let j = choose|j: int|
                        0 <= j < distinct(front).len() && distinct(front)[j] == x;
                    assert(distinct(items)[j] == x);
                } else if !distinct(front).contains(x) {
                    assert(distinct(items)[distinct(front).len() as int] == x);
                }
            }
            if distinct(items).contains(x) {
                let j = choose|j: int| 0 <= j < distinct(items).len() && distinct(items)[j] == x;
                if j < distinct(front).len() {
                    assert(distinct(front)[j] == x);
                    assert(distinct(front).contains(x));
                    let i = choose|i: int| 0 <= i < front.len() && front[i] == x;
                    assert(items[i] == x);
                } else {
                    assert(items[items.len() - 1] == x);
                }
            }
        }
    }
}

pub(crate) proof fn lemma_known(infos: Seq<CommitInfo>)
    ensures
        forall|c: Oid| #[trigger] known(infos).contains_key(c) <==> ids(infos).contains(c),
        forall|c: Oid| #[trigger] known(infos).contains_key(c) ==> known(infos)[c].oid == c,
        known(infos).dom().finite(),
    decreases infos.len(),
{
    if infos.len() > 0 {
        let front = infos.drop_last();
        lemma_known(front);
        assert forall|c: Oid| #[trigger]
            known(infos).contains_key(c) <==> ids(infos).contains(c) by {
            if ids(infos).contains(c) {
                let i = choose|i: int| 0 <= i < infos.len() && ids(infos)[i] == c;
                if i < front.len() {
                    assert(ids(front)[i] == c);
                }
            }
            if known(infos).contains_key(c) {
                if c == infos.last().oid {
                    assert(ids(infos)[infos.len() - 1] == c);
                } else {
                    assert(ids(front).contains(c));
                    let i = choose|i: int| 0 <= i < front.len() && ids(front)[i] == c;
                    assert(ids(infos)[i] == c);
                }
            }
        }
    } else {
        assert forall|c: Oid| !ids(infos).contains(c) by {}
    }
}

/// Two canonical commits of one commit are the same.
pub(crate) proof fn lemma_canonical_unique(infos: Seq<CommitInfo>, commit: Oid, a: Oid, b: Oid)
    requires
        is_canonical(infos, commit, a),
        is_canonical(infos, commit, b),
    ensures
        a == b,
{
    lemma_known(infos);
    assert(known(infos).contains_key(a) && known(infos).contains_key(b));
    Oid::less_is_strict_total_order(a, b, b);
    assert(!known(infos)[a].ranks_before(known(infos)[b]));
    assert(!known(infos)[b].ranks_before(known(infos)[a]));
}

fn gather_known(infos: &Vec<CommitInfo>) -> (map: OidMap<CommitInfo>)
    ensures
        map@ == known(infos@),
{
    let mut map: OidMap<CommitInfo> = OidMap::new();
    let mut i: usize = 0;
    while i < infos.len()
        invariant
            i <= infos@.len(),
            map@ == known(infos@.take(i as int)),
        decreases infos@.len() - i,
    {
        map.insert(infos[i].oid, infos[i]);
        proof {
            assert(infos@.take(i + 1).drop_last() =~= infos@.take(i as int));
        }
        i += 1;
    }
    proof {
        assert(infos@.take(i as int) =~= infos@);
    }
    map
}

/// Of the first `n` commits with tree `tree`, `best` is one that no other ranks before.
spec fn best_of(infos: Seq<CommitInfo>, n: int, tree: Oid, best: CommitInfo) -> bool {
    &&& exists|i: int| 0 <= i < n && best == known(infos)[#[trigger] ids(infos)[i]]
    &&& best.tree_id == tree
    &&& forall|i: int|
        0 <= i < n && tree_of(infos, #[trigger] ids(infos)[i]) == tree ==> !known(
            infos,
        )[ids(infos)[i]].ranks_before(best)
}

fn best_by_tree(infos: &Vec<CommitInfo>, facts: &OidMap<CommitInfo>) -> (best: OidMap<CommitInfo>)
    requires
        facts@ == known(infos@),
    ensures
        forall|i: int|
            #![trigger ids(infos@)[i]]
            0 <= i < infos@.len() ==> best@.contains_key(tree_of(infos@, ids(infos@)[i])),
        forall|tree: Oid| #[trigger]
            best@.contains_key(tree) ==> best_of(
                infos@,
                infos@.len() as int,
                tree,
                best@[tree],
            ),
{
    let mut best: OidMap<CommitInfo> = OidMap::new();
    let mut n: usize = 0;
    while n < infos.len()
        invariant
            n <= infos@.len(),
            facts@ == known(infos@),
            forall|i: int|
                #![trigger ids(infos@)[i]]
                0 <= i < n ==> best@.contains_key(tree_of(infos@, ids(infos@)[i])),
            forall|tree: Oid| #[trigger]
                best@.contains_key(tree) ==> best_of(infos@, n as int, tree, best@[tree]),
        decreases infos@.len() - n,
    {
        let commit = infos[n].oid;
        proof {
            lemma_known(infos@);
            assert(ids(infos@)[n as int] == commit);
            assert(ids(infos@).contains(commit));
            assert(known(infos@).contains_key(commit));
        }
        let ghost before = best@;
        if let Some(info) = facts.get(commit) {
            match best.get(info.tree_id) {
                Some(current) => {
                    if info.is_before(&current) {
                        best.insert(info.tree_id, info);
                    }
                },
                None => {
                    best.insert(info.tree_id, info);
                },
            }
            proof {
                assert forall|tree: Oid| #[trigger] best@.contains_key(tree) implies best_of(
                    infos@,
                    n + 1,
                    tree,
                    best@[tree],
                ) by {
                    lemma_best_step(infos@, n as int, tree, before, best@[tree]);
                }
            }
        }
        n += 1;
    }
    best
}

proof fn lemma_best_step(
    infos: Seq<CommitInfo>,
    n: int,
    tree: Oid,
    before: Map<Oid, CommitInfo>,
    now: CommitInfo,
)
    requires
        0 <= n < infos.len(),
        before.contains_key(tree) ==> best_of(infos, n, tree, before[tree]),
        forall|i: int|
            #![trigger ids(infos)[i]]
            0 <= i < n ==> before.contains_key(tree_of(infos, ids(infos)[i])),
        ({
            let info = known(infos)[ids(infos)[n]];
            if info.tree_id == tree && (!before.contains_key(tree) || info.ranks_before(
                before[tree],
            )) {
                now == info
            } else {
                before.contains_key(tree) && now == before[tree]
            }
        }),
    ensures
        best_of(infos, n + 1, tree, now),
{
    let info = known(infos)[ids(infos)[n]];
    Oid::less_is_strict_total_order(info.oid, info.oid, info.oid);
    if before.contains_key(tree) {
        let old_best = before[tree];
        assert forall|i: int|
            0 <= i < n + 1 && tree_of(infos, #[trigger] ids(infos)[i]) == tree implies !known(
            infos,
        )[ids(infos)[i]].ranks_before(now) by {
            let x = known(infos)[ids(infos)[i]];
            Oid::less_is_strict_total_order(x.oid, info.oid, old_best.oid);
        }
    } else {
        assert forall|i: int|
            0 <= i < n + 1 && tree_of(infos, #[trigger] ids(infos)[i]) == tree implies !known(
            infos,
        )[ids(infos)[i]].ranks_before(now) by {
            assert(i < n ==> before.contains_key(tree_of(infos, ids(infos)[i])));
        }
    }
    if now == info {
        assert(now == known(infos)[ids(infos)[n]]);
    } else {
        let i = choose|i: int| 0 <= i < n && now == known(infos)[#[trigger] ids(infos)[i]];
        assert(now == known(infos)[ids(infos)[i]]);
    }
}

proof fn lemma_best_is_canonical(infos: Seq<CommitInfo>, commit: Oid, best: CommitInfo)
    requires
        ids(infos).contains(commit),
        best_of(infos, infos.len() as int, tree_of(infos, commit), best),
    ensures
        is_canonical(infos, commit, best.oid),
        canonicals(infos)[commit] == best.oid,
{
    lemma_known(infos);
    let i = choose|i: int|
        0 <= i < infos.len() && best == known(infos)[#[trigger] ids(infos)[i]];
    let at = ids(infos)[i];
    assert(ids(infos).contains(at));
    assert(known(infos).contains_key(at));
    assert(best.oid == at);
    assert forall|other: Oid| #[trigger]
        ids(infos).contains(other) && tree_of(infos, other) == tree_of(infos, commit)
         implies !known(infos)[other].ranks_before(known(infos)[best.oid]) by {
        let j = choose|j: int| 0 <= j < infos.len() && ids(infos)[j] == other;
        assert(ids(infos)[j] == other);
    }
    assert(is_canonical(infos, commit, best.oid));
    let chosen = choose|canonical: Oid| is_canonical(infos, commit, canonical);
    lemma_canonical_unique(infos, commit, chosen, best.oid);
}

proof fn lemma_best_exists(infos: Seq<CommitInfo>, n: int, tree: Oid) -> (best: CommitInfo)
    requires
        0 <= n <= infos.len(),
        exists|i: int| 0 <= i < n && tree_of(infos, #[trigger] ids(infos)[i]) == tree,
    ensures
        best_of(infos, n, tree, best),
    decreases n,
{
    let info = known(infos)[ids(infos)[n - 1]];
    if exists|i: int| 0 <= i < n - 1 && tree_of(infos, #[trigger] ids(infos)[i]) == tree {
        let previous = lemma_best_exists(infos, n - 1, tree);
        let best = if info.tree_id == tree && info.ranks_before(previous) {
            info
        } else {
            previous
        };
        let before = Map::new(|t: Oid| true, |t: Oid| previous);
        lemma_best_step(infos, n - 1, tree, before, best);
        best
    } else {
        let before = Map::new(|t: Oid| t != tree, |t: Oid| info);
        lemma_best_step(infos, n - 1, tree, before, info);
        info
    }
}

/// Every commit has a canonical commit: one of the commits, with the same tree, that no other
/// commit with that tree ranks before.
pub proof fn every_commit_has_a_canonical(infos: Seq<CommitInfo>, commit: Oid)
    requires
        ids(infos).contains(commit),
    ensures
        canonicals(infos).contains_key(commit),
        is_canonical(infos, commit, canonicals(infos)[commit]),
{
    let i = choose|i: int| 0 <= i < infos.len() && ids(infos)[i] == commit;
    assert(tree_of(infos, ids(infos)[i]) == tree_of(infos, commit));
    let best = lemma_best_exists(infos, infos.len() as int, tree_of(infos, commit));
    lemma_best_is_canonical(infos, commit, best);
}

/// The canonical commit of each commit, and the commits grouped by tree.
pub fn select_canonicals(infos: &Vec<CommitInfo>) -> (selected: (OidMap<Oid>, Vec<Vec<Oid>>))
    ensures
        selected.0@ == canonicals(infos@),
        selected.1@.map_values(|group: Vec<Oid>| group@) == groups(infos@),
{
    let facts = gather_known(infos);
    let best = best_by_tree(infos, &facts);
    let mut chosen: OidMap<Oid> = OidMap::new();
    let mut i: usize = 0;
    while i < infos.len()
        invariant
            i <= infos@.len(),
            facts@ == known(infos@),
            forall|k: int|
                #![trigger ids(infos@)[k]]
                0 <= k < infos@.len() ==> best@.contains_key(tree_of(infos@, ids(infos@)[k])),
            forall|tree: Oid| #[trigger]
                best@.contains_key(tree) ==> best_of(
                    infos@,
                    infos@.len() as int,
                    tree,
                    best@[tree],
                ),
            forall|c: Oid| #[trigger]
                chosen@.contains_key(c) <==> exists|k: int|
                    0 <= k < i && #[trigger] ids(infos@)[k] == c,
            forall|c: Oid| #[trigger]
                chosen@.contains_key(c) ==> chosen@[c] == canonicals(infos@)[c],
        decreases infos@.len() - i,
    {
        let commit = infos[i].oid;
        let ghost before = chosen@;
        proof {
            lemma_known(infos@);
            assert(ids(infos@)[i as int] == commit);
            assert(ids(infos@).contains(commit));
            assert(known(infos@).contains_key(commit));
        }
        if let Some(info) = facts.get(commit) {
            if let Some(first) = best.get(info.tree_id) {
                proof {
                    lemma_best_is_canonical(infos@, commit, first);
                }
                chosen.insert(commit, first.oid);
            }
        }
        proof {
            assert(chosen@ == before.insert(commit, canonicals(infos@)[commit]));
            assert forall|c: Oid| #[trigger]
                chosen@.contains_key(c) <==> exists|k: int|
                    0 <= k < i + 1 && #[trigger] ids(infos@)[k] == c by {
                if chosen@.contains_key(c) && c != commit {
                    let k = choose|k: int| 0 <= k < i && #[trigger] ids(infos@)[k] == c;
                    assert(ids(infos@)[k] == c);
                }
            }
        }
        i += 1;
    }
    proof {
        assert(chosen@ =~= canonicals(infos@)) by {
            assert forall|c: Oid|
                chosen@.contains_key(c) <==> canonicals(infos@).contains_key(c) by {
                if ids(infos@).contains(c) {
                    let k = choose|k: int| 0 <= k < infos@.len() && ids(infos@)[k] == c;
                    assert(ids(infos@)[k] == c);
                }
            }
        }
    }
    let grouped = group_by_tree(infos, &facts);
    (chosen, grouped)
}

/// The places of the trees among the groups of the first `n` commits.
spec fn group_state(
    infos: Seq<CommitInfo>,
    n: int,
    places: Map<Oid, usize>,
    grouped: Seq<Vec<Oid>>,
) -> bool {
    let tree_seq = ids(infos).map_values(|commit: Oid| tree_of(infos, commit));
    let order = distinct(tree_seq.take(n));
    &&& grouped.len() == order.len()
    &&& forall|tree: Oid| #[trigger] places.contains_key(tree) <==> order.contains(tree)
    &&& forall|tree: Oid| #[trigger]
        places.contains_key(tree) ==> places[tree] < order.len() && order[places[tree] as int]
            == tree
    &&& forall|g: int|
        0 <= g < order.len() ==> (#[trigger] grouped[g])@ == ids(infos).take(n).filter(
            |commit: Oid| tree_of(infos, commit) == order[g],
        )
}

fn group_by_tree(infos: &Vec<CommitInfo>, facts: &OidMap<CommitInfo>) -> (grouped: Vec<Vec<Oid>>)
    requires
        facts@ == known(infos@),
    ensures
        grouped@.map_values(|group: Vec<Oid>| group@) == groups(infos@),
{
    let mut grouped: Vec<Vec<Oid>> = Vec::new();
    let mut places: OidMap<usize> = OidMap::new();
    let ghost tree_seq = ids(infos@).map_values(|commit: Oid| tree_of(infos@, commit));
    let mut n: usize = 0;
    while n < infos.len()
        invariant
            n <= infos@.len(),
            facts@ == known(infos@),
            group_state(infos@, n as int, places@, grouped@),
            tree_seq == ids(infos@).map_values(|commit: Oid| tree_of(infos@, commit)),
        decreases infos@.len() - n,
    {
        let commit = infos[n].oid;
        let ghost order = distinct(tree_seq.take(n as int));
        let ghost before = grouped@;
        let ghost places_before = places@;
        proof {
            lemma_known(infos@);
            assert(ids(infos@)[n as int] == commit);
            assert(ids(infos@).contains(commit));
            assert(known(infos@).contains_key(commit));
            lemma_distinct(tree_seq.take(n as int));
        }
        if let Some(info) = facts.get(commit) {
            match places.get(info.tree_id) {
                Some(place) => {
                    grouped[place].push(commit);
                    proof {
                        assert(grouped@ =~= before.update(place as int, grouped@[place as int]));
                        assert(grouped@[place as int]@ == before[place as int]@.push(commit));
                    }
                },
                None => {
                    let place: usize = grouped.len();
                    let mut fresh: Vec<Oid> = Vec::new();
                    fresh.push(commit);
                    grouped.push(fresh);
                    places.insert(info.tree_id, place);
                },
            }
            proof {
                lemma_group_step(
                    infos@,
                    n as int,
                    places_before,
                    before,
                    places@,
                    grouped@,
                );
            }
        }
        n += 1;
    }
    proof {
        assert(tree_seq.take(n as int) =~= tree_seq);
        assert(ids(infos@).take(n as int) =~= ids(infos@));
        assert forall|g: int| 0 <= g < grouped@.len() implies (#[trigger] grouped@[g])@ == groups(
            infos@,
        )[g] by {
            let order = distinct(tree_seq);
            assert(members(infos@, order[g]) == ids(infos@).filter(
                |commit: Oid| tree_of(infos@, commit) == order[g],
            ));
        }
        assert(grouped@.map_values(|group: Vec<Oid>| group@) =~= groups(infos@));
    }
    grouped
}

proof fn lemma_group_step(
    infos: Seq<CommitInfo>,
    n: int,
    places_before: Map<Oid, usize>,
    before: Seq<Vec<Oid>>,
    places: Map<Oid, usize>,
    grouped: Seq<Vec<Oid>>,
)
    requires
        0 <= n < infos.len(),
        group_state(infos, n, places_before, before),
        ({
            let commit = ids(infos)[n];
            let tree = tree_of(infos, commit);
            if places_before.contains_key(tree) {
                let place = places_before[tree] as int;
                &&& places == places_before
                &&& grouped.len() == before.len()
                &&& grouped == before.update(place, grouped[place])
                &&& grouped[place]@ == before[place]@.push(commit)
            } else {
                &&& before.len() <= usize::MAX
                &&& places == places_before.insert(tree, before.len() as usize)
                &&& grouped.len() == before.len() + 1
                &&& grouped == before.push(grouped.last())
                &&& grouped.last()@ == seq![commit]
            }
        }),
    ensures
        group_state(infos, n + 1, places, grouped),
{
    broadcast use vstd::seq_lib::group_seq_properties;

    let tree_seq = ids(infos).map_values(|c: Oid| tree_of(infos, c));
    let commit = ids(infos)[n];
    let tree = tree_of(infos, commit);
    let front = tree_seq.take(n);
    let order = distinct(front);
    let after = distinct(tree_seq.take(n + 1));
    lemma_distinct(front);
    lemma_distinct(tree_seq.take(n + 1));
    assert(tree_seq.take(n + 1).drop_last() =~= front);
    assert(tree_seq.take(n + 1).last() == tree);
    assert(ids(infos).take(n + 1) =~= ids(infos).take(n).push(commit));
    assert forall|g: int| 0 <= g < after.len() implies (#[trigger] grouped[g])@ == ids(infos).take(
        n + 1,
    ).filter(|c: Oid| tree_of(infos, c) == after[g]) by {
        let pred = |c: Oid| tree_of(infos, c) == after[g];
        ids(infos).take(n).lemma_filter_push(commit, pred);
        if g < order.len() {
            assert(after[g] == order[g]);
            assert(before[g]@ == ids(infos).take(n).filter(|c: Oid| tree_of(infos, c) == order[g]));
            assert(before[g]@ == ids(infos).take(n).filter(pred));
            if order[g] == tree {
                assert(order.contains(tree));
                assert(places_before.contains_key(tree));
                assert(places_before[tree] == g);
            }
        } else {
            assert(after[g] == tree);
            assert(!order.contains(tree));
            assert(ids(infos).take(n).filter(pred) =~= Seq::empty()) by {
                let part = ids(infos).take(n);
                assert forall|i: int| 0 <= i < part.len() implies !pred(#[trigger] part[i]) by {
                    assert(front[i] == tree_of(infos, part[i]));
                    assert(front.contains(front[i]));
                    assert(order.contains(front[i]));
                }
                part.lemma_all_neg_filter_empty(pred);
            }
            assert(grouped[g]@ =~= seq![commit]);
        }
    }
    assert forall|t: Oid| #[trigger] places.contains_key(t) <==> after.contains(t) by {
        if order.contains(tree) {
            assert(after == order);
        } else {
            assert(after == order.push(tree));
            assert(after[order.len() as int] == tree);
            if order.contains(t) {
                let j = choose|j: int| 0 <= j < order.len() && order[j] == t;
                assert(after[j] == t);
            }
        }
    }
}

/// The members of the groups of more than one, group by group.
pub fn shared_members(grouped: &Vec<Vec<Oid>>) -> (shared: Vec<Oid>)
    ensures
        shared@ == shared_of(grouped@.map_values(|group: Vec<Oid>| group@)),
{
    let mut shared: Vec<Oid> = Vec::new();
    let ghost all = grouped@.map_values(|group: Vec<Oid>| group@);
    let mut g: usize = 0;
    while g < grouped.len()
        invariant
            g <= grouped@.len(),
            all == grouped@.map_values(|group: Vec<Oid>| group@),
            shared@ == shared_of(all.take(g as int)),
        decreases grouped@.len() - g,
    {
        proof {
            assert(all.take(g + 1).drop_last() =~= all.take(g as int));
            assert(all.take(g + 1).last() == grouped@[g as int]@);
        }
        if grouped[g].len() > 1 {
            let ghost before = shared@;
            let mut i: usize = 0;
            while i < grouped[g].len()
                invariant
                    g < grouped@.len(),
                    i <= grouped@[g as int]@.len(),
                    shared@ == before + grouped@[g as int]@.take(i as int),
                decreases grouped@[g as int]@.len() - i,
            {
                shared.push(grouped[g][i]);
                proof {
                    assert(shared@ =~= before + grouped@[g as int]@.take(i + 1));
                }
                i += 1;
            }
            proof {
                assert(grouped@[g as int]@.take(i as int) =~= grouped@[g as int]@);
            }
        }
        g += 1;
    }
    proof {
        assert(all.take(g as int) =~= all);
    }
    shared
}

/// The commits that are not canonical themselves, each with its canonical commit.
pub fn duplicate_targets(infos: &Vec<CommitInfo>, chosen: &OidMap<Oid>) -> (targets: OidMap<Oid>)
    requires
        chosen@ == canonicals(infos@),
    ensures
        targets@ == duplicates(infos@),
{
    let mut targets: OidMap<Oid> = OidMap::new();
    let mut i: usize = 0;
    while i < infos.len()
        invariant
            i <= infos@.len(),
            chosen@ == canonicals(infos@),
            forall|c: Oid| #[trigger]
                targets@.contains_key(c) <==> canonicals(infos@)[c] != c && exists|k: int|
                    0 <= k < i && #[trigger] ids(infos@)[k] == c,
            forall|c: Oid| #[trigger]
                targets@.contains_key(c) ==> targets@[c] == canonicals(infos@)[c],
        decreases infos@.len() - i,
    {
        let commit = infos[i].oid;
        proof {
            assert(ids(infos@)[i as int] == commit);
            assert(ids(infos@).contains(commit));
        }
        if let Some(canonical) = chosen.get(commit) {
            if canonical != commit {
                targets.insert(commit, canonical);
            }
        }
        i += 1;
    }
    proof {
        assert(targets@ =~= duplicates(infos@)) by {
            assert forall|c: Oid|
                targets@.contains_key(c) <==> duplicates(infos@).contains_key(c) by {
                if ids(infos@).contains(c) {
                    let k = choose|k: int| 0 <= k < infos@.len() && ids(infos@)[k] == c;
                    assert(ids(infos@)[k] == c);
                }
            }
        }
    }
    targets
}

} // verus!
