//! Which references a run starts from.
use vstd::prelude::*;
use crate::laws::replay::{replay, replay_from_the_front};
use crate::model::{leading, Effect, Ledger, Reply, Stage};
use crate::oid::Oid;
use crate::refs::Ref;

verus! {

/// The test for a reference that stands at the root or above it, where `descends` tells which
/// commits descend from the root.
pub open spec fn is_above(root: Oid, descends: spec_fn(Oid) -> bool) -> spec_fn(Ref) -> bool {
    |r: Ref| r.target == root || descends(r.target)
}

/// What the repository answers for the references one after the other.
pub open spec fn answers(refs: Seq<Ref>, root: Oid, descends: spec_fn(Oid) -> bool) -> Seq<Reply>
    decreases refs.len(),
{
    if refs.len() == 0 {
        Seq::empty()
    } else if refs[0].target == root {
        answers(refs.drop_first(), root, descends)
    } else {
        seq![Reply::Answer(Ok(descends(refs[0].target)))] + answers(
            refs.drop_first(),
            root,
            descends,
        )
    }
}

pub(crate) proof fn lemma_leading(refs: Seq<Ref>, root: Oid)
    ensures
        0 <= leading(refs, root) <= refs.len(),
    decreases refs.len(),
{
    if refs.len() > 0 && refs[0].target == root {
        lemma_leading(refs.drop_first(), root);
    }
}

/// A reference at the root is kept without a question.
pub proof fn references_at_the_root_are_kept(ledger: Ledger, kept: Seq<Ref>, refs: Seq<Ref>)
    requires
        refs.len() > 0,
        refs[0].target == ledger.root,
    ensures
        ledger.sift(kept, refs) == ledger.sift(kept.push(refs[0]), refs.drop_first()),
{
    let rest = refs.drop_first();
    lemma_leading(rest, ledger.root);
    let n = leading(rest, ledger.root);
    assert(leading(refs, ledger.root) == 1 + n);
    assert(kept.push(refs[0]) + rest =~= kept + refs);
    assert(kept.push(refs[0]) + rest.take(n) =~= kept + refs.take(1 + n));
    if n < rest.len() {
        assert(rest.skip(n + 1) =~= refs.skip(1 + n + 1));
        assert(rest[n] == refs[1 + n]);
    }
}

/// A run keeps exactly the references at the root and those that descend from it.
pub proof fn references_above_the_root_are_kept(
    ledger: Ledger,
    kept: Seq<Ref>,
    refs: Seq<Ref>,
    descends: spec_fn(Oid) -> bool,
)
    ensures
        ({
            let first = ledger.sift(kept, refs);
            let later = replay(first.0, answers(refs, ledger.root, descends));
            (later.0, first.1 + later.1) == ledger.sifted(
                kept + refs.filter(is_above(ledger.root, descends)),
            )
        }),
    decreases refs.len(),
{
    let above = is_above(ledger.root, descends);
    let first = ledger.sift(kept, refs);
    let replies = answers(refs, ledger.root, descends);
    if refs.len() == 0 {
        reveal(Seq::filter);
        assert(refs.filter(above) =~= Seq::<Ref>::empty());
        assert(kept + refs =~= kept + refs.filter(above));
        assert(first.1 + Seq::<Effect>::empty() =~= first.1);
    } else {
        let rest = refs.drop_first();
        assert(refs =~= seq![refs[0]] + rest);
        Seq::filter_distributes_over_add(seq![refs[0]], rest, above);
        assert(seq![refs[0]].filter(above) =~= if above(refs[0]) {
            seq![refs[0]]
        } else {
            Seq::empty()
        }) by {
            reveal(Seq::filter);
            assert(seq![refs[0]].drop_last() =~= Seq::<Ref>::empty());
            assert(Seq::<Ref>::empty().filter(above) =~= Seq::<Ref>::empty());
        }
        let kept_next = if above(refs[0]) {
            kept.push(refs[0])
        } else {
            kept
        };
        references_above_the_root_are_kept(ledger, kept_next, rest, descends);
        assert(kept_next + rest.filter(above) =~= kept + refs.filter(above));
        if refs[0].target == ledger.root {
            references_at_the_root_are_kept(ledger, kept, refs);
        } else {
            let answer = Reply::Answer(Ok(descends(refs[0].target)));
            let rest_replies = answers(rest, ledger.root, descends);
            replay_from_the_front(first.0, answer, rest_replies);
            assert(first.0 == ledger.at(
                Stage::Descent {
                    kept: kept + refs.take(0),
                    current: refs[0],
                    rest: refs.skip(1),
                },
            ));
            assert(kept + refs.take(0) =~= kept);
            assert(refs.skip(1) =~= rest);
            let second = ledger.sift(kept_next, rest);
            assert(first.0.advance(answer) == second);
            let later = replay(second.0, rest_replies);
            assert(first.1 + (second.1 + later.1) =~= second.1 + later.1);
        }
    }
}

} // verus!
