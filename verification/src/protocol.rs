//! What a run asks of a repository, what it is told, and what it does.
use vstd::prelude::*;
use crate::model;
use crate::oid::Oid;
use crate::refs::{records_view, texts_view, Failure, GitError, RefRecord};

verus! {

/// What a run does to the world without waiting for an answer.
#[derive(Debug, PartialEq, Eq)]
pub enum Effect {
    /// A line on the standard output.
    Print(String),
    /// A line on the standard error.
    Warn(String),
    /// A new branch; an existing one is left alone.
    CreateBranch { name: String, target: Oid },
    /// A reference that is made or overwritten, with the message for its log.
    SetRef { name: String, target: Oid, message: String },
    /// A lightweight tag that is made or overwritten.
    SetTag { name: String, target: Oid },
    /// A branch that is deleted if it exists.
    DeleteBranch { name: String },
}

impl View for Effect {
    type V = model::Effect;

    open spec fn view(&self) -> model::Effect {
        match *self {
            Effect::Print(line) => model::Effect::Print(line@),
            Effect::Warn(line) => model::Effect::Warn(line@),
            Effect::CreateBranch { name, target } => model::Effect::CreateBranch {
                name: name@,
                target,
            },
            Effect::SetRef { name, target, message } => model::Effect::SetRef {
                name: name@,
                target,
                message: message@,
            },
            Effect::SetTag { name, target } => model::Effect::SetTag { name: name@, target },
            Effect::DeleteBranch { name } => model::Effect::DeleteBranch { name: name@ },
        }
    }
}

/// Effects as contracts speak of them.
pub open spec fn effects_view(effects: Seq<Effect>) -> Seq<model::Effect> {
    effects.map_values(|effect: Effect| effect@)
}

/// How a run ends.
#[derive(Debug)]
pub enum Outcome {
    Success,
    /// The run was refused, with the exit code for it.
    Exit(isize),
    /// The repository failed.
    Failed(GitError),
}

impl View for Outcome {
    type V = model::Outcome;

    open spec fn view(&self) -> model::Outcome {
        match *self {
            Outcome::Success => model::Outcome::Success,
            Outcome::Exit(code) => model::Outcome::Exit(code),
            Outcome::Failed(error) => model::Outcome::Failed(error@),
        }
    }
}

impl Outcome {
    pub(crate) fn copy(&self) -> (copy: Outcome)
        ensures
            copy@ == self@,
    {
        match self {
            Outcome::Success => Outcome::Success,
            Outcome::Exit(code) => Outcome::Exit(*code),
            Outcome::Failed(error) => Outcome::Failed(error.copy()),
        }
    }
}

/// What a run waits for.
#[derive(Debug)]
pub enum Request {
    /// How many entries of the worktree have changes, untracked files among them.
    Statuses,
    /// The commit that a name stands for.
    ResolveCommit(String),
    /// All references.
    ListRefs,
    /// Whether one commit descends from another.
    Descendant { commit: Oid, ancestor: Oid },
    /// The commits that the names reach and `hide` does not, children first.
    WalkRefs { names: Vec<String>, hide: Oid },
    /// The tree and the date of a commit.
    ReadCommit(Oid),
    /// How many commits `from` reaches that `hide` does not.
    CountCommits { from: Oid, hide: Oid },
    /// Whether a commit exists.
    FindCommit(Oid),
    /// Whether a reference exists.
    FindRef(String),
    /// The commit that a reference leads to.
    PeelRef(String),
    /// The commits that `from` reaches and `hide` does not, parents first.
    WalkCommits { from: Oid, hide: Oid },
    /// The signature for the commits that are written next.
    TakeSignature,
    /// A new commit with the tree and the message of `source` on top of `parent`.
    CopyCommit { source: Oid, parent: Oid },
    /// Whether an object exists.
    FindObject(Oid),
    /// Nothing: the run cannot go on and does not end.
    Nothing,
    /// Nothing: the run has ended.
    Finished(Outcome),
}

impl View for Request {
    type V = model::Request;

    open spec fn view(&self) -> model::Request {
        match *self {
            Request::Statuses => model::Request::Statuses,
            Request::ResolveCommit(name) => model::Request::ResolveCommit(name@),
            Request::ListRefs => model::Request::ListRefs,
            Request::Descendant { commit, ancestor } => model::Request::Descendant {
                commit,
                ancestor,
            },
            Request::WalkRefs { names, hide } => model::Request::WalkRefs {
                names: texts_view(names@),
                hide,
            },
            Request::ReadCommit(commit) => model::Request::ReadCommit(commit),
            Request::CountCommits { from, hide } => model::Request::CountCommits { from, hide },
            Request::FindCommit(commit) => model::Request::FindCommit(commit),
            Request::FindRef(name) => model::Request::FindRef(name@),
            Request::PeelRef(name) => model::Request::PeelRef(name@),
            Request::WalkCommits { from, hide } => model::Request::WalkCommits { from, hide },
            Request::TakeSignature => model::Request::TakeSignature,
            Request::CopyCommit { source, parent } => model::Request::CopyCommit {
                source,
                parent,
            },
            Request::FindObject(object) => model::Request::FindObject(object),
            Request::Nothing => model::Request::Nothing,
            Request::Finished(outcome) => model::Request::Finished(outcome@),
        }
    }
}

/// What a run is told. The kind of reply follows from the request: `Count` answers `Statuses` and
/// `CountCommits`, `Commit` answers `ResolveCommit`, `PeelRef` and `CopyCommit`, `Refs` answers
/// `ListRefs`, `Answer` answers `Descendant`, `Commits` answers the two walks, `TreeAndDate`
/// answers `ReadCommit`, and `Found` answers the others.
#[derive(Debug)]
pub enum Reply {
    Count(Result<usize, GitError>),
    Commit(Result<Oid, GitError>),
    Refs(Result<Vec<Result<RefRecord, GitError>>, GitError>),
    Answer(Result<bool, GitError>),
    Commits(Result<Vec<Oid>, GitError>),
    TreeAndDate(Result<(Oid, i64), GitError>),
    Found(Result<(), GitError>),
}

/// A result as contracts speak of it where only its error has a view.
pub open spec fn result_view<T>(result: Result<T, GitError>) -> Result<T, Failure> {
    match result {
        Ok(value) => Ok(value),
        Err(error) => Err(error@),
    }
}

impl View for Reply {
    type V = model::Reply;

    open spec fn view(&self) -> model::Reply {
        match *self {
            Reply::Count(count) => model::Reply::Count(result_view(count)),
            Reply::Commit(commit) => model::Reply::Commit(result_view(commit)),
            Reply::Refs(refs) => model::Reply::Refs(
                match refs {
                    Ok(records) => Ok(records_view(records@)),
                    Err(error) => Err(error@),
                },
            ),
            Reply::Answer(answer) => model::Reply::Answer(result_view(answer)),
            Reply::Commits(commits) => model::Reply::Commits(
                match commits {
                    Ok(commits) => Ok(commits@),
                    Err(error) => Err(error@),
                },
            ),
            Reply::TreeAndDate(read) => model::Reply::TreeAndDate(result_view(read)),
            Reply::Found(found) => model::Reply::Found(result_view(found)),
        }
    }
}

} // verus!
