//! Single steps: what a session asks for, and what each reply makes of it.

use optimize_history::{
    optimize_history, GitError, Oid, Outcome, RefRecord, Reply, Request, Session, Step,
};

fn oid(n: u8) -> Oid {
    Oid { bytes: [n; 20] }
}

fn error(message: &str) -> GitError {
    GitError {
        message: message.to_string(),
        code: -3,
        class: 4,
    }
}

fn record(name: &str, target: u8) -> Result<RefRecord, GitError> {
    Ok(RefRecord {
        name: Some(name.to_string()),
        target: Some(oid(target)),
        peeled: None,
    })
}

fn begin() -> Session {
    optimize_history(None, None, false, true, None).session
}

fn failed(step: &Step) -> String {
    match step.session.request() {
        Request::Finished(Outcome::Failed(error)) => {
            assert_eq!((error.code, error.class), (-3, 4));
            error.message
        }
        other => panic!("{:?}", other),
    }
}

fn at_descent(records: Vec<Result<RefRecord, GitError>>) -> Session {
    begin()
        .advance(Reply::Count(Ok(0)))
        .session
        .advance(Reply::Commit(Ok(oid(1))))
        .session
        .advance(Reply::Refs(Ok(records)))
        .session
}

/// A session that has found `refs/heads/main` at the root.
fn at_first_walk() -> Session {
    at_descent(vec![record("refs/heads/main", 1), record("refs/tags/t", 1)])
}

#[test]
fn the_first_request_is_for_the_worktree() {
    assert!(matches!(begin().request(), Request::Statuses));
}

#[test]
fn failures_before_the_first_round_end_the_run() {
    assert_eq!(failed(&begin().advance(Reply::Count(Err(error("bare"))))), "bare");
    let listing = begin()
        .advance(Reply::Count(Ok(0)))
        .session
        .advance(Reply::Commit(Ok(oid(1))))
        .session;
    assert_eq!(failed(&listing.advance(Reply::Refs(Err(error("locked"))))), "locked");
    assert_eq!(
        failed(&at_first_walk().advance(Reply::Refs(Ok(vec![
            record("refs/heads/main", 1),
            Err(error("first")),
            Err(error("second")),
        ])))),
        "first"
    );
}

#[test]
fn a_reply_of_another_kind_changes_nothing() {
    let step = begin().advance(Reply::Found(Ok(())));
    assert!(step.effects.is_empty());
    assert!(matches!(step.session.request(), Request::Statuses));
}

#[test]
fn an_ended_run_stays_as_it_is() {
    let ended = begin().advance(Reply::Count(Ok(1))).session;
    let step = ended.advance(Reply::Count(Ok(0)));
    assert!(step.effects.is_empty());
    assert!(matches!(
        step.session.request(),
        Request::Finished(Outcome::Exit(1))
    ));
}

#[test]
fn references_are_asked_about_in_the_order_of_their_names() {
    let session = at_descent(vec![
        record("refs/tags/a", 3),
        record("refs/heads/z", 2),
        record("refs/heads/a", 1),
        record("refs/remotes/origin/a", 9),
    ]);
    match session.request() {
        Request::Descendant { commit, ancestor } => {
            assert_eq!((commit, ancestor), (oid(2), oid(1)));
        }
        other => panic!("{:?}", other),
    }
    let session = session.advance(Reply::Answer(Err(error("shallow")))).session;
    match session.request() {
        Request::Descendant { commit, .. } => assert_eq!(commit, oid(3)),
        other => panic!("{:?}", other),
    }
    let step = session.advance(Reply::Answer(Ok(true)));
    assert_eq!(step.effects.len(), 1);
    assert!(matches!(step.session.request(), Request::ListRefs));
}

#[test]
fn walks_start_from_branches_and_not_from_tags() {
    let session = at_first_walk()
        .advance(Reply::Refs(Ok(vec![
            record("refs/heads/main", 1),
            record("refs/heads/gto-tag-tmp/v1", 2),
            record("refs/heads/gto/x", 3),
            record("refs/tags/v1", 4),
        ])))
        .session;
    match session.request() {
        Request::WalkRefs { names, hide } => {
            assert_eq!(names, vec!["refs/heads/gto/x", "refs/heads/main"]);
            assert_eq!(hide, oid(1));
        }
        other => panic!("{:?}", other),
    }
}

#[test]
fn the_root_is_read_and_its_depth_is_not_counted() {
    let session = at_first_walk()
        .advance(Reply::Refs(Ok(vec![record("refs/heads/main", 2)])))
        .session
        .advance(Reply::Commits(Ok(vec![oid(2)])))
        .session;
    assert!(matches!(session.request(), Request::ReadCommit(commit) if commit == oid(1)));
    let session = session
        .advance(Reply::TreeAndDate(Ok((oid(101), 5))))
        .session;
    assert!(matches!(session.request(), Request::ReadCommit(commit) if commit == oid(2)));
    let session = session
        .advance(Reply::TreeAndDate(Ok((oid(102), 6))))
        .session;
    match session.request() {
        Request::CountCommits { from, hide } => assert_eq!((from, hide), (oid(2), oid(1))),
        other => panic!("{:?}", other),
    }
    // The second walk reads the commits again, and counts nothing.
    let mut session = session.advance(Reply::Count(Ok(1))).session;
    for _ in 0..2 {
        session = session
            .advance(Reply::Refs(Ok(vec![record("refs/heads/main", 2)])))
            .session
            .advance(Reply::Commits(Ok(vec![oid(2)])))
            .session;
    }
    for n in 1..3 {
        assert!(matches!(session.request(), Request::ReadCommit(commit) if commit == oid(n)));
        session = session
            .advance(Reply::TreeAndDate(Ok((oid(100 + n), 5))))
            .session;
    }
    assert!(matches!(session.request(), Request::ListRefs));
}

#[test]
fn a_listing_without_references_walks_nothing() {
    // Without a walk there is no commit to read, not even the root.
    let step = at_first_walk().advance(Reply::Refs(Ok(vec![])));
    assert_eq!(step.effects.len(), 1);
    let step = step.session.advance(Reply::Refs(Ok(vec![])));
    assert_eq!(step.effects.len(), 3);
    assert!(matches!(step.session.request(), Request::ListRefs));
}

#[test]
fn clean_up_passes_over_what_it_cannot_read() {
    let cleaning = at_first_walk()
        .advance(Reply::Refs(Ok(vec![])))
        .session
        .advance(Reply::Refs(Ok(vec![])))
        .session;
    let step = cleaning.advance(Reply::Refs(Err(error("locked"))));
    assert_eq!(step.effects.len(), 1);
    assert!(matches!(
        step.session.request(),
        Request::Finished(Outcome::Success)
    ));
}

#[test]
fn an_error_of_git_comes_out_as_it_went_in() {
    let told = git2::Error::new(git2::ErrorCode::Locked, git2::ErrorClass::Index, "locked");
    let step = begin().advance(Reply::Count(Err(GitError {
        message: told.message().to_string(),
        code: told.raw_code() as i32,
        class: told.raw_class() as i32,
    })));
    match step.session.request() {
        Request::Finished(Outcome::Failed(error)) => {
            assert_eq!(error.message, "locked");
            assert_eq!(error.code, told.raw_code() as i32);
            assert_eq!(error.class, told.raw_class() as i32);
        }
        other => panic!("{:?}", other),
    }
}
