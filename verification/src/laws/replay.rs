//! Runs over several replies.
use vstd::prelude::*;
use crate::model::{Effect, Reply, Run};

verus! {

/// A run after a number of replies, and the effects that it has had on the way.
pub open spec fn replay(run: Run, replies: Seq<Reply>) -> (Run, Seq<Effect>)
    decreases replies.len(),
{
    if replies.len() == 0 {
        (run, Seq::empty())
    } else {
        let before = replay(run, replies.drop_last());
        let step = before.0.advance(replies.last());
        (step.0, before.1 + step.1)
    }
}

/// Replies can be taken off the front as well.
pub proof fn replay_from_the_front(run: Run, reply: Reply, replies: Seq<Reply>)
    ensures
        replay(run, seq![reply] + replies) == ({
            let step = run.advance(reply);
            let later = replay(step.0, replies);
            (later.0, step.1 + later.1)
        }),
    decreases replies.len(),
{
    let all = seq![reply] + replies;
    let step = run.advance(reply);
    if replies.len() == 0 {
        assert(all.drop_last() =~= Seq::<Reply>::empty());
        assert(all.last() == reply);
        assert(replay(run, all.drop_last()) == (run, Seq::<Effect>::empty()));
        assert(Seq::<Effect>::empty() + step.1 =~= step.1 + Seq::<Effect>::empty());
    } else {
        replay_from_the_front(run, reply, replies.drop_last());
        assert(all.drop_last() =~= seq![reply] + replies.drop_last());
        assert(all.last() == replies.last());
        let later = replay(step.0, replies.drop_last());
        let last = later.0.advance(replies.last());
        assert(step.1 + later.1 + last.1 =~= step.1 + (later.1 + last.1));
    }
}

/// Replies can be taken in two parts.
pub proof fn replay_in_parts(run: Run, first: Seq<Reply>, second: Seq<Reply>)
    ensures
        replay(run, first + second) == ({
            let before = replay(run, first);
            let later = replay(before.0, second);
            (later.0, before.1 + later.1)
        }),
    decreases second.len(),
{
    let before = replay(run, first);
    if second.len() == 0 {
        assert(first + second =~= first);
        assert(before.1 + Seq::<Effect>::empty() =~= before.1);
    } else {
        replay_in_parts(run, first, second.drop_last());
        assert((first + second).drop_last() =~= first + second.drop_last());
        let later = replay(before.0, second.drop_last());
        let last = later.0.advance(second.last());
        assert(before.1 + later.1 + last.1 =~= before.1 + (later.1 + last.1));
    }
}

} // verus!
