//! The lines that a run prints, and those of its plan.
use vstd::prelude::*;
use crate::oid::{hex, Oid};
use crate::refs::{keep_ref, keep_ref_text, temporary_ref, temporary_ref_text};
use crate::text::{decimal, decimal_text, Text};

verus! {

/// The two ways in which a run moves branches from duplicates to canonical commits.
#[derive(Clone, Copy, Debug, PartialEq, Eq, Structural)]
pub enum Pattern {
    /// The canonical commit is not an ancestor of the duplicate: branches are rebased.
    Rebase,
    /// The canonical commit is an ancestor of the duplicate: branches become less deep.
    Shallow,
}

/// The run begins.
pub open spec fn preflight() -> Text {
    "Performing pre-flight checks..."@
}

pub(crate) fn preflight_text() -> (text: String)
    ensures
        text@ == preflight(),
{
    "Performing pre-flight checks...".to_owned()
}

/// The worktree holds changes.
pub open spec fn dirty() -> Text {
    "error: worktree must be clean"@
}

pub(crate) fn dirty_text() -> (text: String)
    ensures
        text@ == dirty(),
{
    "error: worktree must be clean".to_owned()
}

/// The root names no commit.
pub open spec fn invalid_root(name: Text) -> Text {
    "error: invalid root commit: "@ + name
}

pub(crate) fn invalid_root_text(name: &str) -> (text: String)
    ensures
        text@ == invalid_root(name@),
{
    let mut text = "error: invalid root commit: ".to_owned();
    text.append(name);
    text
}

/// No branch or tag is above the root.
pub open spec fn no_refs(name: Text, root: Oid) -> Text {
    "error: no local refs descend from root "@ + name + " ("@ + hex(root.bytes@) + ")"@
}

pub(crate) fn no_refs_text(name: &str, root: &Oid) -> (text: String)
    ensures
        text@ == no_refs(name@, *root),
{
    let mut text = "error: no local refs descend from root ".to_owned();
    text.append(name);
    text.append(" (");
    text.append(root.to_hex().as_str());
    text.append(")");
    text
}

/// The root is settled.
pub open spec fn optimizing(name: Text, root: Oid) -> Text {
    "Optimizing sub-tree history above root "@ + name + " ("@ + hex(root.bytes@) + ")..."@
}

pub(crate) fn optimizing_text(name: &str, root: &Oid) -> (text: String)
    ensures
        text@ == optimizing(name@, *root),
{
    let mut text = "Optimizing sub-tree history above root ".to_owned();
    text.append(name);
    text.append(" (");
    text.append(root.to_hex().as_str());
    text.append(")...");
    text
}

/// A round begins.
pub open spec fn round_begins(round: usize) -> Text {
    "Round "@ + decimal(round as nat) + ": enumerating commits and canonical groups..."@
}

pub(crate) fn round_begins_text(round: usize) -> (text: String)
    ensures
        text@ == round_begins(round),
{
    let mut text = "Round ".to_owned();
    text.append(decimal_text(round).as_str());
    text.append(": enumerating commits and canonical groups...");
    text
}

/// The rounds are used up.
pub open spec fn too_many_rounds(limit: usize) -> Text {
    "error: exceeded max rounds ("@ + decimal(limit as nat) + ")"@
}

pub(crate) fn too_many_rounds_text(limit: usize) -> (text: String)
    ensures
        text@ == too_many_rounds(limit),
{
    let mut text = "error: exceeded max rounds (".to_owned();
    text.append(decimal_text(limit).as_str());
    text.append(")");
    text
}

/// There is no commit above the root.
pub open spec fn nothing_to_do() -> Text {
    "No reachable commits to optimize."@
}

pub(crate) fn nothing_to_do_text() -> (text: String)
    ensures
        text@ == nothing_to_do(),
{
    "No reachable commits to optimize.".to_owned()
}

/// A duplicate gets a temporary branch.
pub open spec fn branching(commit: Oid) -> Text {
    "Step 0: creating temporary branch "@ + temporary_ref(commit) + " for duplicate commit "@ + hex(
        commit.bytes@,
    )
}

pub(crate) fn branching_text(commit: &Oid) -> (text: String)
    ensures
        text@ == branching(*commit),
{
    let mut text = "Step 0: creating temporary branch ".to_owned();
    text.append(temporary_ref_text(commit).as_str());
    text.append(" for duplicate commit ");
    text.append(commit.to_hex().as_str());
    text
}

/// The plan has a temporary branch for a duplicate.
pub open spec fn branching_plan(commit: Oid) -> Text {
    "Step 0: create temp branch "@ + temporary_ref(commit) + " for "@ + hex(commit.bytes@)
}

pub(crate) fn branching_plan_text(commit: &Oid) -> (text: String)
    ensures
        text@ == branching_plan(*commit),
{
    let mut text = "Step 0: create temp branch ".to_owned();
    text.append(temporary_ref_text(commit).as_str());
    text.append(" for ");
    text.append(commit.to_hex().as_str());
    text
}

/// The plan has a branch that keeps a duplicate.
pub open spec fn keeping_plan(pattern: Pattern, commit: Oid) -> Text {
    match pattern {
        Pattern::Rebase => "Pattern 1: preserve chain "@ + keep_ref(commit) + " at "@ + hex(
            commit.bytes@,
        ),
        Pattern::Shallow => "Pattern 2: preserve chain "@ + keep_ref(commit) + " at "@ + hex(
            commit.bytes@,
        ),
    }
}

pub(crate) fn keeping_plan_text(pattern: Pattern, commit: &Oid) -> (text: String)
    ensures
        text@ == keeping_plan(pattern, *commit),
{
    match pattern {
        Pattern::Rebase => {
            let mut text = "Pattern 1: preserve chain ".to_owned();
            text.append(keep_ref_text(commit).as_str());
            text.append(" at ");
            text.append(commit.to_hex().as_str());
            text
        },
        Pattern::Shallow => {
            let mut text = "Pattern 2: preserve chain ".to_owned();
            text.append(keep_ref_text(commit).as_str());
            text.append(" at ");
            text.append(commit.to_hex().as_str());
            text
        },
    }
}

/// A branch is moved onto a canonical commit.
pub open spec fn moving(
    pattern: Pattern,
    round: usize,
    pass: usize,
    name: Text,
    canonical: Oid,
) -> Text {
    match pattern {
        Pattern::Rebase => "Round "@ + decimal(round as nat) + " Pass 1 (pass "@ + decimal(
            pass as nat,
        ) + "): rebasing "@ + name + " onto canonical "@ + hex(canonical.bytes@),
        Pattern::Shallow => "Round "@ + decimal(round as nat) + " Pass 2 (pass "@ + decimal(
            pass as nat,
        ) + "): shallowing "@ + name + " onto canonical "@ + hex(canonical.bytes@),
    }
}

pub(crate) fn moving_text(
    pattern: Pattern,
    round: usize,
    pass: usize,
    name: &str,
    canonical: &Oid,
) -> (text: String)
    ensures
        text@ == moving(pattern, round, pass, name@, *canonical),
{
    match pattern {
        Pattern::Rebase => {
            let mut text = "Round ".to_owned();
            text.append(decimal_text(round).as_str());
            text.append(" Pass 1 (pass ");
            text.append(decimal_text(pass).as_str());
            text.append("): rebasing ");
            text.append(name);
            text.append(" onto canonical ");
            text.append(canonical.to_hex().as_str());
            text
        },
        Pattern::Shallow => {
            let mut text = "Round ".to_owned();
            text.append(decimal_text(round).as_str());
            text.append(" Pass 2 (pass ");
            text.append(decimal_text(pass).as_str());
            text.append("): shallowing ");
            text.append(name);
            text.append(" onto canonical ");
            text.append(canonical.to_hex().as_str());
            text
        },
    }
}

/// The plan has a branch that is moved onto a canonical commit.
pub open spec fn moving_plan(pattern: Pattern, name: Text, canonical: Oid, commit: Oid) -> Text {
    match pattern {
        Pattern::Rebase => "Pattern 1: rebase "@ + name + " onto "@ + hex(canonical.bytes@)
            + " (from "@ + hex(commit.bytes@) + ")"@,
        Pattern::Shallow => "Pattern 2: rebase "@ + name + " onto "@ + hex(canonical.bytes@)
            + " (from "@ + hex(commit.bytes@) + ")"@,
    }
}

pub(crate) fn moving_plan_text(
    pattern: Pattern,
    name: &str,
    canonical: &Oid,
    commit: &Oid,
) -> (text: String)
    ensures
        text@ == moving_plan(pattern, name@, *canonical, *commit),
{
    match pattern {
        Pattern::Rebase => {
            let mut text = "Pattern 1: rebase ".to_owned();
            text.append(name);
            text.append(" onto ");
            text.append(canonical.to_hex().as_str());
            text.append(" (from ");
            text.append(commit.to_hex().as_str());
            text.append(")");
            text
        },
        Pattern::Shallow => {
            let mut text = "Pattern 2: rebase ".to_owned();
            text.append(name);
            text.append(" onto ");
            text.append(canonical.to_hex().as_str());
            text.append(" (from ");
            text.append(commit.to_hex().as_str());
            text.append(")");
            text
        },
    }
}

/// A round has changed nothing.
pub open spec fn fixpoint(round: usize) -> Text {
    "Fixpoint reached in round "@ + decimal(round as nat) + ". Optimization complete."@
}

pub(crate) fn fixpoint_text(round: usize) -> (text: String)
    ensures
        text@ == fixpoint(round),
{
    let mut text = "Fixpoint reached in round ".to_owned();
    text.append(decimal_text(round).as_str());
    text.append(". Optimization complete.");
    text
}

/// The tags follow.
pub open spec fn moving_tags() -> Text {
    "Updating tags to point to canonical commits..."@
}

pub(crate) fn moving_tags_text() -> (text: String)
    ensures
        text@ == moving_tags(),
{
    "Updating tags to point to canonical commits...".to_owned()
}

/// A tag stays at a duplicate.
pub open spec fn tag_left(name: Text) -> Text {
    name + " left"@
}

pub(crate) fn tag_left_text(name: &str) -> (text: String)
    ensures
        text@ == tag_left(name@),
{
    let mut text = name.to_owned();
    text.append(" left");
    text
}

/// The plan follows.
pub open spec fn plan_begins() -> Text {
    "plan:"@
}

pub(crate) fn plan_begins_text() -> (text: String)
    ensures
        text@ == plan_begins(),
{
    "plan:".to_owned()
}

/// One item of the plan.
pub open spec fn plan_item(item: Text) -> Text {
    "  "@ + item
}

pub(crate) fn plan_item_text(item: &str) -> (text: String)
    ensures
        text@ == plan_item(item@),
{
    let mut text = "  ".to_owned();
    text.append(item);
    text
}

/// The temporary branches go.
pub open spec fn cleaning() -> Text {
    "Cleaning up temporary branches..."@
}

pub(crate) fn cleaning_text() -> (text: String)
    ensures
        text@ == cleaning(),
{
    "Cleaning up temporary branches...".to_owned()
}

/// The run ends.
pub open spec fn finished() -> Text {
    "Finished sub-tree history optimization."@
}

pub(crate) fn finished_text() -> (text: String)
    ensures
        text@ == finished(),
{
    "Finished sub-tree history optimization.".to_owned()
}

} // verus!
