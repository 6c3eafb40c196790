//! What a run leaves alone.
use vstd::prelude::*;
use crate::laws::naming::names_are_told_by_how_they_begin;
use crate::laws::preserving::{lemma_course_refs, lemma_grounded};
use crate::laws::replay::replay;
use crate::laws::soundness::{effects_are_permitted, permitted, runs_are_sound};
use crate::laws::world::{
    course, holds, lemma_course, lemma_tag_name, lemma_temporary_names, perform, Refs, World,
};
use crate::model::{start, Effect, Ledger, Options, Reply};
use crate::oid::Oid;
use crate::refs::{is_head, is_movable, is_tag, is_temporary, Ref};
use crate::text::Text;

verus! {

/// The reference is where it was, if it was there; if it is no branch, it is not there otherwise.
spec fn stays(first: Refs, refs: Refs, name: Text) -> bool {
    &&& first.contains_key(name) ==> refs.contains_key(name) && refs[name] == first[name]
    &&& refs.contains_key(name) && !first.contains_key(name) ==> is_head(name)
}

proof fn lemma_stays(first: Refs, ledger: Ledger, effects: Seq<Effect>, name: Text)
    requires
        forall|i: int| 0 <= i < ledger.initial.len() ==> holds(first, #[trigger] ledger.initial[i]),
        forall|i: int| 0 <= i < effects.len() ==> permitted(ledger, #[trigger] effects[i]),
        !is_movable(name),
        !is_temporary(name),
        is_tag(name) ==> !ledger.options.move_tags || ledger.options.dry_run,
    ensures
        stays(first, perform(first, effects), name),
    decreases effects.len(),
{
    if effects.len() > 0 {
        let front = effects.drop_last();
        assert forall|i: int| 0 <= i < front.len() implies permitted(ledger, #[trigger] front[i]) by {
            assert(front[i] == effects[i]);
        }
        lemma_stays(first, ledger, front, name);
        let refs = perform(first, front);
        let effect = effects.last();
        assert(permitted(ledger, effects[effects.len() - 1]));
        match effect {
            Effect::CreateBranch { name: made, .. } => {
                let full = "refs/heads/"@ + made;
                assert(full.subrange(0, "refs/heads/"@.len() as int) =~= "refs/heads/"@);
            },
            Effect::SetRef { name: set, target, .. } => {
                let r = Ref { name: set, target };
                if ledger.initial.contains(r) {
                    let k = choose|k: int| 0 <= k < ledger.initial.len() && ledger.initial[k] == r;
                    assert(holds(first, ledger.initial[k]));
                }
            },
            Effect::SetTag { name: tag, .. } => {
                lemma_tag_name(tag);
            },
            Effect::DeleteBranch { name: gone } => {
                lemma_temporary_names(gone);
            },
            _ => {},
        }
    }
}

/// References that are no branches, and branches under `gto-keep/`, stay where they are, at every
/// moment; but for tags, where these are to move. None is made besides branches.
pub proof fn other_references_stay(
    world: World,
    first: Refs,
    options: Options,
    root: Oid,
    replies: Seq<Reply>,
    name: Text,
)
    requires
        world.wf(),
        world.is_honest(first, start(options, root), replies),
        !"refs/heads/"@.is_prefix_of(name) || "refs/heads/gto-keep/"@.is_prefix_of(name),
        "refs/tags/"@.is_prefix_of(name) ==> !options.move_tags || options.dry_run,
    ensures
        ({
            let refs = course(first, start(options, root), replies).0;
            &&& first.contains_key(name) ==> refs.contains_key(name) && refs[name] == first[name]
            &&& !"refs/heads/"@.is_prefix_of(name) && refs.contains_key(name)
                ==> first.contains_key(name)
        }),
{
    let run = start(options, root);
    lemma_grounded(world, first, options, root, replies);
    lemma_course(first, run, replies);
    lemma_course_refs(first, run, replies);
    effects_are_permitted(options, root, replies);
    runs_are_sound(options, root, replies);
    names_are_told_by_how_they_begin(name, root);
    lemma_temporary_names(name);
    lemma_stays(first, replay(run, replies).0.ledger, replay(run, replies).1, name);
}

} // verus!
