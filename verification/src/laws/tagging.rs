//! Where tags go.
use vstd::prelude::*;
use crate::laws::replay::replay;
use crate::laws::soundness::runs_are_sound;
use crate::model::{start, Effect, Ledger, Options, Reply, Stage};
use crate::oid::Oid;
use crate::refs::{tags_of, Ref};
use crate::rewrites::chain_end;
use crate::text::trimmed;

verus! {

proof fn lemma_tag_extends(ledger: Ledger, tags: Seq<Ref>, effects: Seq<Effect>)
    ensures
        effects.is_prefix_of(ledger.tag(tags, effects).1),
    decreases tags.len(),
{
    if tags.len() > 0 {
        lemma_tag_extends(ledger, tags.drop_first(), effects);
        assert(effects =~= effects.subrange(0, effects.len() as int));
    } else {
        assert(effects =~= ledger.tag(tags, effects).1.subrange(0, effects.len() as int));
    }
}

/// The tag that a run is about to move is one that it found, and it is moved to another commit:
/// to the end of the rewrites of its commit, or, where there are none, to the canonical commit of
/// the duplicate at which it stands.
pub proof fn tags_follow_their_commits(
    options: Options,
    root: Oid,
    replies: Seq<Reply>,
    tag: Ref,
    target: Oid,
    rest: Seq<Ref>,
)
    requires
        replay(start(options, root), replies).0.stage == (Stage::Tag { tag, target, rest }),
    ensures
        ({
            let run = replay(start(options, root), replies).0;
            let end = chain_end(run.ledger.rewrites, tag.target);
            &&& tags_of(run.ledger.initial).contains(tag)
            &&& target != tag.target
            &&& end is Some
            &&& end->0 != tag.target ==> target == end->0
            &&& end->0 == tag.target ==> run.ledger.duplicates.contains_key(tag.target) && target
                == run.ledger.duplicates[tag.target]
            &&& run.advance(Reply::Found(Ok(()))).1.contains(
                Effect::SetTag { name: trimmed(tag.name, "refs/tags/"@), target },
            )
        }),
{
    runs_are_sound(options, root, replies);
    let run = replay(start(options, root), replies).0;
    let moved = seq![Effect::SetTag { name: trimmed(tag.name, "refs/tags/"@), target }];
    lemma_tag_extends(run.ledger, rest, moved);
    let effects = run.advance(Reply::Found(Ok(()))).1;
    assert(effects == run.ledger.tag(rest, moved).1);
    assert(effects.subrange(0, 1)[0] == moved[0]);
    assert(effects[0] == moved[0]);
}

} // verus!
