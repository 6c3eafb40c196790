//! How ids, numbers and lines are written.
use vstd::prelude::*;
use crate::messages::{
    branching, branching_plan, cleaning, dirty, finished, fixpoint, invalid_root, keeping_plan,
    moving, moving_plan, moving_tags, no_refs, nothing_to_do, optimizing, plan_begins, plan_item,
    preflight, round_begins, tag_left, too_many_rounds, Pattern,
};
use crate::model::{first_effects, Effect};
use crate::oid::{hex, Oid};
use crate::text::{decimal, Text};

verus! {

/// An id is written as forty hexadecimal digits in lower case, two for each byte.
pub proof fn ids_are_written_in_hexadecimal(id: Oid, i: int)
    requires
        0 <= i < 20,
    ensures
        hex(id.bytes@).len() == 40,
        ({
            let digits = "0123456789abcdef"@;
            let byte = id.bytes@[i] as int;
            &&& hex(id.bytes@)[2 * i] == digits[byte / 16]
            &&& hex(id.bytes@)[2 * i + 1] == digits[byte % 16]
        }),
{
    reveal_strlit("0123456789abcdef");
    let byte = id.bytes@[i] as int;
    assert(0 <= byte / 16 < 16);
    assert(0 <= byte % 16 < 16);
    assert((2 * i) / 2 == i && (2 * i + 1) / 2 == i);
}

/// What decimal digits stand for.
pub open spec fn value(digits: Text) -> int
    decreases digits.len(),
{
    if digits.len() == 0 {
        0
    } else {
        10 * value(digits.drop_last()) + (digits.last() as int - '0' as int)
    }
}

/// A number is written in decimal digits that stand for it, without zeros in front.
pub proof fn numbers_are_written_in_decimal(n: nat)
    ensures
        value(decimal(n)) == n,
        decimal(n).len() > 0,
        forall|i: int| 0 <= i < decimal(n).len() ==> '0' <= #[trigger] decimal(n)[i] <= '9',
        n > 0 ==> decimal(n)[0] != '0',
    decreases n,
{
    let digits = decimal(n);
    if n < 10 {
        assert(digits.drop_last() =~= Seq::<char>::empty());
        assert(value(digits.drop_last()) == 0);
    } else {
        numbers_are_written_in_decimal(n / 10);
        assert(digits.drop_last() =~= decimal(n / 10));
    }
}

/// The lines in which a run names commits and branches.
pub proof fn lines_name_commits_and_branches(
    name: Text,
    commit: Oid,
    canonical: Oid,
    round: usize,
    pass: usize,
)
    ensures
        ({
            let (c, k) = (hex(commit.bytes@), hex(canonical.bytes@));
            let (r, p) = (decimal(round as nat), decimal(pass as nat));
            &&& branching(commit) == "Step 0: creating temporary branch refs/heads/gto/"@ + c
                + " for duplicate commit "@ + c
            &&& branching_plan(commit) == "Step 0: create temp branch refs/heads/gto/"@ + c
                + " for "@ + c
            &&& keeping_plan(Pattern::Rebase, commit)
                == "Pattern 1: preserve chain refs/heads/gto-keep/"@ + c + " at "@ + c
            &&& keeping_plan(Pattern::Shallow, commit)
                == "Pattern 2: preserve chain refs/heads/gto-keep/"@ + c + " at "@ + c
            &&& moving(Pattern::Rebase, round, pass, name, canonical) == "Round "@ + r
                + " Pass 1 (pass "@ + p + "): rebasing "@ + name + " onto canonical "@ + k
            &&& moving(Pattern::Shallow, round, pass, name, canonical) == "Round "@ + r
                + " Pass 2 (pass "@ + p + "): shallowing "@ + name + " onto canonical "@ + k
            &&& moving_plan(Pattern::Rebase, name, canonical, commit) == "Pattern 1: rebase "@
                + name + " onto "@ + k + " (from "@ + c + ")"@
            &&& moving_plan(Pattern::Shallow, name, canonical, commit) == "Pattern 2: rebase "@
                + name + " onto "@ + k + " (from "@ + c + ")"@
        }),
{
    reveal_strlit("refs/heads/gto/");
    reveal_strlit("refs/heads/gto-keep/");
    reveal_strlit("Step 0: creating temporary branch ");
    reveal_strlit("Step 0: creating temporary branch refs/heads/gto/");
    reveal_strlit("Step 0: create temp branch ");
    reveal_strlit("Step 0: create temp branch refs/heads/gto/");
    reveal_strlit("Pattern 1: preserve chain ");
    reveal_strlit("Pattern 2: preserve chain ");
    reveal_strlit("Pattern 1: preserve chain refs/heads/gto-keep/");
    reveal_strlit("Pattern 2: preserve chain refs/heads/gto-keep/");
    let c = hex(commit.bytes@);
    assert("Step 0: creating temporary branch "@ + "refs/heads/gto/"@
        =~= "Step 0: creating temporary branch refs/heads/gto/"@);
    assert("Step 0: create temp branch "@ + "refs/heads/gto/"@
        =~= "Step 0: create temp branch refs/heads/gto/"@);
    assert("Pattern 1: preserve chain "@ + "refs/heads/gto-keep/"@
        =~= "Pattern 1: preserve chain refs/heads/gto-keep/"@);
    assert("Pattern 2: preserve chain "@ + "refs/heads/gto-keep/"@
        =~= "Pattern 2: preserve chain refs/heads/gto-keep/"@);
    assert(branching(commit) =~= "Step 0: creating temporary branch refs/heads/gto/"@ + c
        + " for duplicate commit "@ + c);
    assert(branching_plan(commit) =~= "Step 0: create temp branch refs/heads/gto/"@ + c + " for "@
        + c);
    assert(keeping_plan(Pattern::Rebase, commit)
        =~= "Pattern 1: preserve chain refs/heads/gto-keep/"@ + c + " at "@ + c);
    assert(keeping_plan(Pattern::Shallow, commit)
        =~= "Pattern 2: preserve chain refs/heads/gto-keep/"@ + c + " at "@ + c);
}

/// The lines in which a run says how far it is, and why it ends.
pub proof fn lines_tell_how_far_a_run_is(name: Text, root: Oid, item: Text, n: usize)
    ensures
        first_effects() == seq![Effect::Print("Performing pre-flight checks..."@)],
        preflight() == "Performing pre-flight checks..."@,
        dirty() == "error: worktree must be clean"@,
        invalid_root(name) == "error: invalid root commit: "@ + name,
        no_refs(name, root) == "error: no local refs descend from root "@ + name + " ("@ + hex(
            root.bytes@,
        ) + ")"@,
        optimizing(name, root) == "Optimizing sub-tree history above root "@ + name + " ("@ + hex(
            root.bytes@,
        ) + ")..."@,
        round_begins(n) == "Round "@ + decimal(n as nat)
            + ": enumerating commits and canonical groups..."@,
        too_many_rounds(n) == "error: exceeded max rounds ("@ + decimal(n as nat) + ")"@,
        nothing_to_do() == "No reachable commits to optimize."@,
        fixpoint(n) == "Fixpoint reached in round "@ + decimal(n as nat)
            + ". Optimization complete."@,
        moving_tags() == "Updating tags to point to canonical commits..."@,
        tag_left(name) == name + " left"@,
        plan_begins() == "plan:"@,
        plan_item(item) == "  "@ + item,
        cleaning() == "Cleaning up temporary branches..."@,
        finished() == "Finished sub-tree history optimization."@,
{
}

} // verus!
