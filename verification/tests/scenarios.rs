//! Whole runs on small repositories that are kept in memory.

use std::collections::{BTreeMap, BTreeSet};

use optimize_history::{
    optimize_history, Effect, GitError, Oid, Outcome, RefRecord, Reply, Request, Revset, Step,
};

fn oid(n: u8) -> Oid {
    Oid { bytes: [n; 20] }
}

fn hex(n: u8) -> String {
    format!("{:02x}", n).repeat(20)
}

fn error(message: &str) -> GitError {
    GitError {
        message: message.to_string(),
        code: -3,
        class: 4,
    }
}

struct Commit {
    id: u8,
    parents: Vec<u8>,
    tree: u8,
    date: i64,
}

struct World {
    commits: Vec<Commit>,
    refs: BTreeMap<String, u8>,
    names: BTreeMap<String, u8>,
    changes: usize,
    broken_copies: bool,
    out: Vec<String>,
    err: Vec<String>,
    writes: Vec<Effect>,
}

impl World {
    fn new(commits: &[(u8, &[u8], u8, i64)], refs: &[(&str, u8)]) -> World {
        World {
            commits: commits
                .iter()
                .map(|(id, parents, tree, date)| Commit {
                    id: *id,
                    parents: parents.to_vec(),
                    tree: *tree,
                    date: *date,
                })
                .collect(),
            refs: refs
                .iter()
                .map(|(name, target)| (name.to_string(), *target))
                .collect(),
            names: BTreeMap::from([("HEAD".to_string(), 1)]),
            changes: 0,
            broken_copies: false,
            out: Vec::new(),
            err: Vec::new(),
            writes: Vec::new(),
        }
    }

    fn commit(&self, id: Oid) -> Option<&Commit> {
        self.commits.iter().find(|commit| oid(commit.id) == id)
    }

    fn reach(&self, from: Oid) -> BTreeSet<u8> {
        let mut found = BTreeSet::new();
        let mut todo = vec![from];
        while let Some(next) = todo.pop() {
            if let Some(commit) = self.commit(next) {
                if found.insert(commit.id) {
                    todo.extend(commit.parents.iter().map(|parent| oid(*parent)));
                }
            }
        }
        found
    }

    /// Children first: a commit comes after its parents in `commits`.
    fn walk(&self, from: &[Oid], hide: Oid) -> Vec<Oid> {
        let hidden = self.reach(hide);
        let mut found = BTreeSet::new();
        for start in from {
            found.extend(self.reach(*start));
        }
        self.commits
            .iter()
            .rev()
            .filter(|commit| found.contains(&commit.id) && !hidden.contains(&commit.id))
            .map(|commit| oid(commit.id))
            .collect()
    }

    fn found(&self, id: Oid) -> Result<(), GitError> {
        self.commit(id).map(|_| ()).ok_or_else(|| error("no such object"))
    }

    fn answer(&mut self, request: Request) -> Reply {
        match request {
            Request::Statuses => Reply::Count(Ok(self.changes)),
            Request::ResolveCommit(name) => Reply::Commit(
                self.names
                    .get(&name)
                    .map(|id| oid(*id))
                    .ok_or_else(|| error("no such name")),
            ),
            Request::ListRefs => Reply::Refs(Ok(self
                .refs
                .iter()
                .map(|(name, target)| {
                    Ok(RefRecord {
                        name: Some(name.clone()),
                        target: Some(oid(*target)),
                        peeled: None,
                    })
                })
                .collect())),
            Request::Descendant { commit, ancestor } => Reply::Answer(Ok(commit != ancestor
                && self.reach(commit).contains(&ancestor.bytes[0]))),
            Request::WalkRefs { names, hide } => {
                let from: Vec<Oid> = names.iter().map(|name| oid(self.refs[name])).collect();
                Reply::Commits(Ok(self.walk(&from, hide)))
            }
            Request::ReadCommit(id) => Reply::TreeAndDate(
                self.commit(id)
                    .map(|commit| (oid(commit.tree), commit.date))
                    .ok_or_else(|| error("no such commit")),
            ),
            Request::CountCommits { from, hide } => {
                Reply::Count(Ok(self.walk(&[from], hide).len()))
            }
            Request::FindCommit(id) => Reply::Found(self.found(id)),
            Request::FindRef(name) => Reply::Found(if self.refs.contains_key(&name) {
                Ok(())
            } else {
                Err(error("no such reference"))
            }),
            Request::PeelRef(name) => Reply::Commit(Ok(oid(self.refs[&name]))),
            Request::WalkCommits { from, hide } => {
                let mut commits = self.walk(&[from], hide);
                commits.reverse();
                Reply::Commits(Ok(commits))
            }
            Request::TakeSignature => Reply::Found(Ok(())),
            Request::CopyCommit { source, parent } => {
                if self.broken_copies {
                    return Reply::Commit(Err(error("read-only")));
                }
                let id = self.commits.last().unwrap().id + 1;
                let tree = self.commit(source).unwrap().tree;
                self.commits.push(Commit {
                    id,
                    parents: vec![parent.bytes[0]],
                    tree,
                    date: 1000,
                });
                Reply::Commit(Ok(oid(id)))
            }
            Request::FindObject(id) => Reply::Found(self.found(id)),
            Request::Nothing | Request::Finished(_) => unreachable!(),
        }
    }

    fn perform(&mut self, effect: Effect) {
        match &effect {
            Effect::Print(line) => self.out.push(line.clone()),
            Effect::Warn(line) => self.err.push(line.clone()),
            Effect::CreateBranch { name, target } => {
                self.refs
                    .entry(format!("refs/heads/{name}"))
                    .or_insert(target.bytes[0]);
            }
            Effect::SetRef { name, target, .. } => {
                self.refs.insert(name.clone(), target.bytes[0]);
            }
            Effect::SetTag { name, target } => {
                self.refs.insert(format!("refs/tags/{name}"), target.bytes[0]);
            }
            Effect::DeleteBranch { name } => {
                self.refs.remove(&format!("refs/heads/{name}"));
            }
        }
        if !matches!(effect, Effect::Print(_) | Effect::Warn(_)) {
            self.writes.push(effect);
        }
    }

    fn carry_out(&mut self, begun: Step) -> Outcome {
        let mut step = begun;
        for _ in 0..10_000 {
            for effect in step.effects {
                self.perform(effect);
            }
            match step.session.request() {
                Request::Finished(outcome) => return outcome,
                request => {
                    let reply = self.answer(request);
                    step = step.session.advance(reply);
                }
            }
        }
        panic!("the run does not end");
    }

    fn run(&mut self, dry_run: bool, move_tags: bool, max_rounds: Option<usize>) -> Outcome {
        self.carry_out(optimize_history(None, None, dry_run, move_tags, max_rounds))
    }

    fn standing(&self) -> Vec<(&str, u8)> {
        self.refs
            .iter()
            .map(|(name, target)| (name.as_str(), *target))
            .collect()
    }
}

/// Commits 2 and 4 have one tree; 3 is on top of 2 and 5 on top of 4.
fn forked() -> World {
    World::new(
        &[
            (1, &[], 101, 10),
            (2, &[1], 102, 20),
            (3, &[2], 103, 30),
            (4, &[1], 102, 40),
            (5, &[4], 104, 50),
        ],
        &[("refs/heads/feature", 5), ("refs/heads/main", 3)],
    )
}

/// Commit 4 has the tree of its ancestor 2.
fn lined() -> World {
    World::new(
        &[
            (1, &[], 101, 10),
            (2, &[1], 102, 20),
            (3, &[2], 103, 30),
            (4, &[3], 102, 40),
            (5, &[4], 104, 50),
            (6, &[5], 105, 60),
        ],
        &[("refs/heads/main", 6)],
    )
}

#[test]
fn a_branch_on_a_duplicate_is_rebased_onto_the_canonical_commit() {
    let mut world = forked();
    assert!(matches!(world.run(false, false, None), Outcome::Success));
    let keep = format!("refs/heads/gto-keep/{}", hex(4));
    assert_eq!(
        world.standing(),
        vec![
            ("refs/heads/feature", 6),
            (keep.as_str(), 4),
            ("refs/heads/main", 3),
        ]
    );
    assert_eq!(world.commit(oid(6)).unwrap().parents, vec![2]);
    assert_eq!(world.commit(oid(6)).unwrap().tree, 104);
    assert!(world.err.is_empty());
    assert_eq!(
        world.out,
        vec![
            "Performing pre-flight checks...".to_string(),
            format!("Optimizing sub-tree history above root HEAD ({})...", hex(1)),
            "Round 1: enumerating commits and canonical groups...".to_string(),
            format!(
                "Step 0: creating temporary branch refs/heads/gto/{0} for duplicate commit {0}",
                hex(4)
            ),
            format!(
                "Step 0: creating temporary branch refs/heads/gto/{0} for duplicate commit {0}",
                hex(2)
            ),
            format!(
                "Round 1 Pass 1 (pass 1): rebasing refs/heads/feature onto canonical {}",
                hex(2)
            ),
            "Round 2: enumerating commits and canonical groups...".to_string(),
            "Fixpoint reached in round 2. Optimization complete.".to_string(),
            "Cleaning up temporary branches...".to_string(),
            "Finished sub-tree history optimization.".to_string(),
        ]
    );
    assert_eq!(
        world.writes,
        vec![
            Effect::CreateBranch {
                name: format!("gto/{}", hex(4)),
                target: oid(4),
            },
            Effect::CreateBranch {
                name: format!("gto/{}", hex(2)),
                target: oid(2),
            },
            Effect::CreateBranch {
                name: format!("gto-keep/{}", hex(4)),
                target: oid(4),
            },
            Effect::SetRef {
                name: "refs/heads/feature".to_string(),
                target: oid(6),
                message: "rebase_branch_onto".to_string(),
            },
            Effect::DeleteBranch {
                name: format!("gto/{}", hex(2)),
            },
            Effect::DeleteBranch {
                name: format!("gto/{}", hex(4)),
            },
        ]
    );
}

#[test]
fn a_branch_above_a_later_duplicate_on_its_own_line_becomes_less_deep() {
    let mut world = lined();
    assert!(matches!(world.run(false, false, None), Outcome::Success));
    assert_eq!(world.refs["refs/heads/main"], 8);
    assert_eq!(world.commit(oid(8)).unwrap().parents, vec![7]);
    assert_eq!(world.commit(oid(8)).unwrap().tree, 105);
    assert_eq!(world.commit(oid(7)).unwrap().parents, vec![2]);
    assert_eq!(world.commit(oid(7)).unwrap().tree, 104);
    assert_eq!(world.refs[&format!("refs/heads/gto-keep/{}", hex(4))], 4);
    assert!(world.out.contains(&format!(
        "Round 1 Pass 2 (pass 1): shallowing refs/heads/main onto canonical {}",
        hex(2)
    )));
    assert!(!world.out.iter().any(|line| line.contains("Pass 1")));
}

#[test]
fn a_second_run_changes_nothing_more() {
    let mut world = forked();
    assert!(matches!(world.run(false, false, None), Outcome::Success));
    let before = world.refs.clone();
    let commits = world.commits.len();
    assert!(matches!(world.run(false, false, None), Outcome::Success));
    assert_eq!(world.refs, before);
    assert_eq!(world.commits.len(), commits);
}

#[test]
fn a_dry_run_prints_its_plan_and_changes_nothing() {
    let mut world = forked();
    world.refs.insert("refs/tags/v1".to_string(), 4);
    let before = world.refs.clone();
    assert!(matches!(world.run(true, true, Some(1)), Outcome::Success));
    assert_eq!(world.refs, before);
    assert_eq!(world.commits.len(), 5);
    let at = world.out.iter().position(|line| line == "plan:").unwrap();
    assert_eq!(
        world.out[at..].to_vec(),
        vec![
            "plan:".to_string(),
            format!("  Step 0: create temp branch refs/heads/gto/{0} for {0}", hex(4)),
            format!("  Step 0: create temp branch refs/heads/gto/{0} for {0}", hex(2)),
            format!("  Pattern 1: preserve chain refs/heads/gto-keep/{0} at {0}", hex(4)),
            format!(
                "  Pattern 1: rebase refs/heads/feature onto {} (from {})",
                hex(2),
                hex(4)
            ),
            "Finished sub-tree history optimization.".to_string(),
        ]
    );
    assert_eq!(
        world.writes,
        vec![
            Effect::SetRef {
                name: "refs/heads/feature".to_string(),
                target: oid(5),
                message: "rollback_dry_run".to_string(),
            },
            Effect::SetRef {
                name: "refs/heads/main".to_string(),
                target: oid(3),
                message: "rollback_dry_run".to_string(),
            },
            Effect::SetRef {
                name: "refs/tags/v1".to_string(),
                target: oid(4),
                message: "rollback_dry_run".to_string(),
            },
        ]
    );
}

#[test]
fn a_dry_run_plans_to_shallow_a_line() {
    let mut world = lined();
    assert!(matches!(world.run(true, false, None), Outcome::Success));
    assert!(world.out.contains(&format!(
        "  Pattern 2: preserve chain refs/heads/gto-keep/{0} at {0}",
        hex(4)
    )));
    assert!(world.out.contains(&format!(
        "  Pattern 2: rebase refs/heads/main onto {} (from {})",
        hex(2),
        hex(4)
    )));
}

#[test]
fn tags_follow_rewrites_and_duplicates() {
    let mut world = forked();
    world.refs.insert("refs/tags/on-copy".to_string(), 5);
    world.refs.insert("refs/tags/on-duplicate".to_string(), 4);
    world.refs.insert("refs/tags/on-main".to_string(), 3);
    assert!(matches!(world.run(false, true, None), Outcome::Success));
    assert_eq!(world.refs["refs/tags/on-copy"], 6);
    assert_eq!(world.refs["refs/tags/on-duplicate"], 2);
    assert_eq!(world.refs["refs/tags/on-main"], 3);
    assert!(world
        .out
        .contains(&"Updating tags to point to canonical commits...".to_string()));
    let tagged: Vec<&Effect> = world
        .writes
        .iter()
        .filter(|effect| matches!(effect, Effect::SetTag { .. }))
        .collect();
    assert_eq!(
        tagged,
        vec![
            &Effect::SetTag {
                name: "on-copy".to_string(),
                target: oid(6),
            },
            &Effect::SetTag {
                name: "on-duplicate".to_string(),
                target: oid(2),
            },
        ]
    );
}

#[test]
fn tags_stay_unless_they_are_asked_to_move() {
    let mut world = forked();
    world.refs.insert("refs/tags/on-copy".to_string(), 5);
    world.refs.insert("refs/tags/on-duplicate".to_string(), 4);
    assert!(matches!(world.run(false, false, None), Outcome::Success));
    assert_eq!(world.refs["refs/tags/on-copy"], 5);
    assert_eq!(world.refs["refs/tags/on-duplicate"], 4);
    assert!(world.out.contains(&"refs/tags/on-duplicate left".to_string()));
    assert!(!world.out.contains(&"refs/tags/on-copy left".to_string()));
}

#[test]
fn a_run_out_of_rounds_puts_references_back() {
    let mut world = forked();
    assert!(matches!(world.run(false, false, Some(1)), Outcome::Exit(1)));
    assert_eq!(world.refs["refs/heads/feature"], 5);
    assert_eq!(world.refs["refs/heads/main"], 3);
    assert_eq!(world.err, vec!["error: exceeded max rounds (1)".to_string()]);
    assert_eq!(
        world.out.last().unwrap(),
        "Round 2: enumerating commits and canonical groups..."
    );
    assert_eq!(
        world.writes[world.writes.len() - 2],
        Effect::SetRef {
            name: "refs/heads/feature".to_string(),
            target: oid(5),
            message: "rollback".to_string(),
        }
    );
    assert_eq!(
        world.writes[world.writes.len() - 1],
        Effect::SetRef {
            name: "refs/heads/main".to_string(),
            target: oid(3),
            message: "rollback".to_string(),
        }
    );
}

#[test]
fn two_rounds_are_enough_for_a_fork() {
    let mut world = forked();
    assert!(matches!(world.run(false, false, Some(2)), Outcome::Success));
    assert_eq!(world.refs["refs/heads/feature"], 6);
}

#[test]
fn a_dirty_worktree_is_refused() {
    let mut world = forked();
    world.changes = 3;
    assert!(matches!(world.run(false, false, None), Outcome::Exit(1)));
    assert_eq!(world.out, vec!["Performing pre-flight checks...".to_string()]);
    assert_eq!(world.err, vec!["error: worktree must be clean".to_string()]);
    assert!(world.writes.is_empty());
}

#[test]
fn a_root_that_names_no_commit_is_refused() {
    let mut world = forked();
    let begun = optimize_history(
        Some(Revset("HEAD".to_string())),
        Some(Revset("nowhere".to_string())),
        false,
        false,
        None,
    );
    assert!(matches!(world.carry_out(begun), Outcome::Exit(1)));
    assert_eq!(world.err, vec!["error: invalid root commit: nowhere".to_string()]);
    assert!(world.writes.is_empty());
}

#[test]
fn a_base_stands_in_for_a_root() {
    let mut world = forked();
    world.names.insert("side".to_string(), 4);
    let begun = optimize_history(Some(Revset("side".to_string())), None, true, false, None);
    assert!(matches!(world.carry_out(begun), Outcome::Success));
    assert_eq!(
        world.out[1],
        format!("Optimizing sub-tree history above root side ({})...", hex(4))
    );
}

#[test]
fn a_root_below_no_reference_is_refused() {
    let mut world = World::new(
        &[(1, &[], 101, 10), (2, &[], 102, 20)],
        &[("refs/heads/main", 2), ("refs/remotes/origin/main", 1)],
    );
    assert!(matches!(world.run(false, false, None), Outcome::Exit(1)));
    assert_eq!(
        world.err,
        vec![format!(
            "error: no local refs descend from root HEAD ({})",
            hex(1)
        )]
    );
}

#[test]
fn references_elsewhere_are_not_put_back() {
    let mut world = forked();
    world.commits.push(Commit {
        id: 9,
        parents: vec![],
        tree: 109,
        date: 5,
    });
    world.refs.insert("refs/heads/elsewhere".to_string(), 9);
    assert!(matches!(world.run(true, false, None), Outcome::Success));
    let restored: Vec<&str> = world
        .writes
        .iter()
        .filter_map(|effect| match effect {
            Effect::SetRef { name, .. } => Some(name.as_str()),
            _ => None,
        })
        .collect();
    assert_eq!(restored, vec!["refs/heads/feature", "refs/heads/main"]);
}

#[test]
fn there_is_nothing_to_do_at_the_root() {
    let mut world = World::new(&[(1, &[], 101, 10)], &[("refs/heads/main", 1)]);
    assert!(matches!(world.run(false, false, None), Outcome::Success));
    assert_eq!(
        world.out,
        vec![
            "Performing pre-flight checks...".to_string(),
            format!("Optimizing sub-tree history above root HEAD ({})...", hex(1)),
            "Round 1: enumerating commits and canonical groups...".to_string(),
            "No reachable commits to optimize.".to_string(),
            "Cleaning up temporary branches...".to_string(),
            "Finished sub-tree history optimization.".to_string(),
        ]
    );
    assert!(world.writes.is_empty());
}

#[test]
fn commits_with_trees_of_their_own_are_left_alone() {
    let mut world = World::new(
        &[(1, &[], 101, 10), (2, &[1], 102, 20), (3, &[1], 103, 30)],
        &[("refs/heads/a", 2), ("refs/heads/b", 3)],
    );
    assert!(matches!(world.run(false, true, None), Outcome::Success));
    assert!(world.writes.is_empty());
    assert!(world
        .out
        .contains(&"Fixpoint reached in round 1. Optimization complete.".to_string()));
}

#[test]
fn a_branch_that_cannot_be_copied_is_tried_again() {
    let mut world = forked();
    world.broken_copies = true;
    let begun = optimize_history(None, None, false, false, Some(3));
    let mut step = begun;
    let mut passes = 0;
    for _ in 0..2_000 {
        for effect in step.effects {
            world.perform(effect);
        }
        let request = step.session.request();
        if matches!(request, Request::CopyCommit { .. }) {
            passes += 1;
            if passes == 3 {
                world.broken_copies = false;
            }
        }
        if let Request::Finished(outcome) = request {
            assert!(matches!(outcome, Outcome::Success));
            assert_eq!(world.refs["refs/heads/feature"], 6);
            assert!(world.out.contains(&format!(
                "Round 1 Pass 1 (pass 3): rebasing refs/heads/feature onto canonical {}",
                hex(2)
            )));
            return;
        }
        let reply = world.answer(request);
        step = step.session.advance(reply);
    }
    panic!("the run does not end");
}

/// The ids of the commits above the root, and above which a branch stands that is not a run's own.
fn below_tips(world: &World) -> BTreeSet<u8> {
    let hidden = world.reach(oid(world.names["HEAD"]));
    let mut below = BTreeSet::new();
    for (name, target) in &world.refs {
        if name.starts_with("refs/heads/") && !name.starts_with("refs/heads/gto") {
            let mut reached = world.reach(oid(*target));
            reached.remove(target);
            below.extend(reached.into_iter().filter(|id| !hidden.contains(id)));
        }
    }
    below
}

fn tree(world: &World, id: u8) -> u8 {
    world.commit(oid(id)).unwrap().tree
}

/// Commits 3 and 4 have one tree, and so have 2 and the root; three branches stand above them.
fn tangled() -> World {
    World::new(
        &[
            (1, &[], 101, 10),
            (2, &[1], 101, 20),
            (3, &[2], 103, 30),
            (4, &[1], 103, 40),
            (5, &[3], 105, 50),
            (6, &[4], 106, 60),
            (7, &[5, 6], 107, 70),
        ],
        &[
            ("refs/heads/a", 5),
            ("refs/heads/b", 6),
            ("refs/heads/c", 7),
        ],
    )
}

#[test]
fn commits_below_tips_end_up_with_trees_of_their_own() {
    for mut world in [forked(), lined(), tangled()] {
        assert!(matches!(world.run(false, false, None), Outcome::Success));
        let below = below_tips(&world);
        let trees: BTreeSet<u8> = below.iter().map(|id| tree(&world, *id)).collect();
        assert_eq!(trees.len(), below.len());
        assert!(!trees.contains(&101));
    }
}

#[test]
fn branches_keep_the_trees_of_their_tips() {
    for max_rounds in [None, Some(1)] {
        for mut world in [forked(), lined(), tangled()] {
            let before: BTreeMap<String, u8> = world
                .refs
                .iter()
                .map(|(name, target)| (name.clone(), tree(&world, *target)))
                .collect();
            world.run(false, false, max_rounds);
            for (name, kept) in before {
                assert_eq!(tree(&world, world.refs[&name]), kept);
            }
        }
    }
}

#[test]
fn branches_do_not_get_deeper() {
    for mut world in [forked(), lined(), tangled()] {
        let before: BTreeMap<String, usize> = world
            .refs
            .iter()
            .map(|(name, target)| (name.clone(), world.walk(&[oid(*target)], oid(1)).len()))
            .collect();
        assert!(matches!(world.run(false, false, None), Outcome::Success));
        for (name, depth) in before {
            let target = oid(world.refs[&name]);
            assert!(world.walk(&[target], oid(1)).len() <= depth);
        }
    }
}

#[test]
fn a_second_run_writes_nothing_but_temporary_branches() {
    for mut world in [forked(), lined(), tangled()] {
        assert!(matches!(world.run(false, false, None), Outcome::Success));
        let refs = world.refs.clone();
        let commits = world.commits.len();
        world.writes.clear();
        assert!(matches!(world.run(false, false, None), Outcome::Success));
        assert_eq!(world.refs, refs);
        assert_eq!(world.commits.len(), commits);
        assert!(world.writes.iter().all(|effect| match effect {
            Effect::CreateBranch { name, .. } | Effect::DeleteBranch { name } =>
                name.starts_with("gto/"),
            _ => false,
        }));
    }
}

#[test]
fn a_run_out_of_rounds_has_moved_no_tag() {
    let mut world = forked();
    world.refs.insert("refs/tags/on-duplicate".to_string(), 4);
    assert!(matches!(world.run(false, true, Some(1)), Outcome::Exit(1)));
    assert_eq!(world.refs["refs/tags/on-duplicate"], 4);
    assert!(!world
        .writes
        .iter()
        .any(|effect| matches!(effect, Effect::SetTag { .. })));
}

#[test]
fn a_run_without_a_limit_is_not_refused_for_want_of_rounds() {
    for limit in [None, Some(0)] {
        let mut world = tangled();
        assert!(matches!(world.run(false, false, limit), Outcome::Success));
        assert!(world.err.is_empty());
    }
}

#[test]
fn tags_that_move_keep_their_trees() {
    let mut world = forked();
    for (name, target) in [("a", 4), ("b", 5), ("c", 3)] {
        world.refs.insert(format!("refs/tags/{name}"), target);
    }
    assert!(matches!(world.run(false, true, None), Outcome::Success));
    assert_eq!(tree(&world, world.refs["refs/tags/a"]), 102);
    assert_eq!(tree(&world, world.refs["refs/tags/b"]), 104);
    assert_eq!(tree(&world, world.refs["refs/tags/c"]), 103);
}

#[test]
fn a_run_out_of_rounds_leaves_references_as_it_found_them() {
    for mut world in [forked(), lined(), tangled()] {
        let before = world.refs.clone();
        assert!(matches!(world.run(false, false, Some(1)), Outcome::Exit(1)));
        for (name, target) in before {
            assert_eq!(world.refs[&name], target);
        }
    }
}

#[test]
fn dry_runs_leave_all_references_alone() {
    for mut world in [forked(), lined(), tangled()] {
        let before = world.refs.clone();
        assert!(matches!(world.run(true, true, None), Outcome::Success));
        assert_eq!(world.refs, before);
    }
}
