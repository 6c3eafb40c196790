//! The parts of a run on given values.

use optimize_history::canonical::{
    duplicate_targets, select_canonicals, shared_members, CommitInfo,
};
use optimize_history::oid_map::OidMap;
use optimize_history::order::is_bytes_less;
use optimize_history::refs::{
    collect_local_refs, movable_heads, tag_list, temporary_branch_list, unbranched_commits,
    walk_name_list, RefEntry,
};
use optimize_history::rewrites::{follow, tag_target, Target};
use optimize_history::text::{decimal_text, starts_with, trim_start};
use optimize_history::walk::{add_root, candidate_list, has_others};
use optimize_history::{GitError, Oid, RefRecord};

fn oid(n: u8) -> Oid {
    Oid { bytes: [n; 20] }
}

fn info(n: u8, tree: u8, depth: usize, cdate: i64) -> CommitInfo {
    CommitInfo {
        tree_id: oid(tree),
        depth,
        cdate,
        oid: oid(n),
    }
}

fn entry(name: &str, target: u8) -> RefEntry {
    RefEntry {
        name: name.to_string(),
        target: oid(target),
    }
}

fn record(name: Option<&str>, target: Option<u8>, peeled: Option<u8>) -> RefRecord {
    RefRecord {
        name: name.map(|name| name.to_string()),
        target: target.map(oid),
        peeled: peeled.map(oid),
    }
}

fn unreadable(message: &str) -> GitError {
    GitError {
        message: message.to_string(),
        code: -1,
        class: 2,
    }
}

fn map(pairs: &[(u8, u8)]) -> OidMap<Oid> {
    let mut map = OidMap::new();
    for (key, value) in pairs {
        map.insert(oid(*key), oid(*value));
    }
    map
}

#[test]
fn ids_are_written_as_git_writes_them() {
    let mut bytes = [0u8; 20];
    for i in 0..20 {
        bytes[i] = (i * 13) as u8;
    }
    let id = Oid { bytes };
    assert_eq!(id.to_hex(), "000d1a2734414e5b6875828f9ca9b6c3d0ddeaf7");
    assert_eq!(id.to_hex(), git2::Oid::from_bytes(&bytes).unwrap().to_string());
    assert_eq!(oid(0).to_hex(), "0".repeat(40));
    assert_eq!(oid(255).to_hex(), "f".repeat(40));
}

#[test]
fn ids_are_ordered_as_git_orders_them() {
    let mut high = [1u8; 20];
    high[19] = 2;
    let ids = [oid(0), oid(1), Oid { bytes: high }, oid(127), oid(128), oid(255)];
    for a in ids {
        for b in ids {
            let git_a = git2::Oid::from_bytes(&a.bytes).unwrap();
            let git_b = git2::Oid::from_bytes(&b.bytes).unwrap();
            assert_eq!(a.is_less(&b), git_a < git_b);
            assert_eq!(a == b, git_a == git_b);
        }
    }
}

#[test]
fn bytes_are_ordered_like_words() {
    assert!(is_bytes_less(b"a", b"ab"));
    assert!(is_bytes_less(b"ab", b"b"));
    assert!(!is_bytes_less(b"b", b"ab"));
    assert!(!is_bytes_less(b"a", b"a"));
    assert!(is_bytes_less(b"", b"a"));
}

#[test]
fn numbers_are_written_in_decimal() {
    for n in [0, 7, 10, 99, 100, 1234567890, usize::MAX] {
        assert_eq!(decimal_text(n), n.to_string());
    }
}

#[test]
fn prefixes_are_found_and_taken_away() {
    assert!(starts_with("refs/heads/a", "refs/heads/"));
    assert!(!starts_with("refs/head", "refs/heads/"));
    assert!(starts_with("\u{e4}b", "\u{e4}"));
    assert!(starts_with("a", ""));
    assert_eq!(trim_start("refs/tags/v1", "refs/tags/"), "v1");
    assert_eq!(trim_start("refs/tags/refs/tags/v1", "refs/tags/"), "v1");
    assert_eq!(trim_start("v1", "refs/tags/"), "v1");
    assert_eq!(trim_start("v1", ""), "v1");
    assert_eq!(trim_start("refs/tags/\u{e4}", "refs/tags/"), "\u{e4}");
}

#[test]
fn maps_hold_the_last_value_of_a_key() {
    let mut map: OidMap<usize> = OidMap::new();
    assert_eq!(map.len(), 0);
    assert_eq!(map.get(oid(1)), None);
    map.insert(oid(5), 50);
    map.insert(oid(1), 10);
    map.insert(oid(3), 30);
    map.insert(oid(3), 31);
    assert_eq!(map.len(), 3);
    assert_eq!(map.get(oid(1)), Some(10));
    assert_eq!(map.get(oid(3)), Some(31));
    assert_eq!(map.get(oid(5)), Some(50));
    assert_eq!(map.get(oid(4)), None);
}

#[test]
fn the_less_deep_commit_is_canonical() {
    let infos = vec![info(1, 9, 3, 1), info(2, 9, 2, 5), info(3, 8, 1, 1)];
    let (chosen, groups) = select_canonicals(&infos);
    assert_eq!(chosen.get(oid(1)), Some(oid(2)));
    assert_eq!(chosen.get(oid(2)), Some(oid(2)));
    assert_eq!(chosen.get(oid(3)), Some(oid(3)));
    assert_eq!(chosen.get(oid(4)), None);
    assert_eq!(groups, vec![vec![oid(1), oid(2)], vec![oid(3)]]);
    assert_eq!(shared_members(&groups), vec![oid(1), oid(2)]);
    let duplicates = duplicate_targets(&infos, &chosen);
    assert_eq!(duplicates.len(), 1);
    assert_eq!(duplicates.get(oid(1)), Some(oid(2)));
}

#[test]
fn of_commits_as_deep_the_older_is_canonical() {
    let infos = vec![info(1, 9, 2, 7), info(2, 9, 2, -5)];
    let (chosen, _) = select_canonicals(&infos);
    assert_eq!(chosen.get(oid(1)), Some(oid(2)));
}

#[test]
fn of_commits_as_deep_and_old_the_smaller_id_is_canonical() {
    let infos = vec![info(7, 9, 2, 5), info(4, 9, 2, 5), info(6, 9, 2, 5)];
    let (chosen, groups) = select_canonicals(&infos);
    for n in [4, 6, 7] {
        assert_eq!(chosen.get(oid(n)), Some(oid(4)));
    }
    assert_eq!(groups, vec![vec![oid(7), oid(4), oid(6)]]);
}

#[test]
fn groups_stand_in_the_order_of_their_first_commits() {
    let infos = vec![info(1, 9, 1, 1), info(2, 8, 2, 1), info(3, 9, 3, 1), info(4, 8, 4, 1)];
    let (_, groups) = select_canonicals(&infos);
    assert_eq!(groups, vec![vec![oid(1), oid(3)], vec![oid(2), oid(4)]]);
    assert_eq!(shared_members(&groups), vec![oid(1), oid(3), oid(2), oid(4)]);
}

#[test]
fn no_commits_have_no_canonicals() {
    let (chosen, groups) = select_canonicals(&vec![]);
    assert_eq!(chosen.len(), 0);
    assert!(groups.is_empty());
    assert!(shared_members(&groups).is_empty());
}

#[test]
fn branches_and_tags_are_listed_by_name() {
    let listed = collect_local_refs(vec![
        Ok(record(Some("refs/tags/v1"), Some(1), None)),
        Ok(record(Some("refs/heads/b"), Some(2), None)),
        Ok(record(Some("refs/remotes/origin/b"), Some(3), None)),
        Ok(record(None, Some(4), None)),
        Ok(record(Some("refs/heads/a"), None, Some(5))),
        Ok(record(Some("refs/heads/unborn"), None, None)),
        Ok(record(Some("refs/heads/b"), Some(6), None)),
    ])
    .unwrap();
    let pairs: Vec<(&str, Oid)> = listed
        .iter()
        .map(|entry| (entry.name.as_str(), entry.target))
        .collect();
    assert_eq!(
        pairs,
        vec![
            ("refs/heads/a", oid(5)),
            ("refs/heads/b", oid(6)),
            ("refs/tags/v1", oid(1)),
        ]
    );
}

#[test]
fn a_target_counts_before_what_it_peels_to() {
    let listed =
        collect_local_refs(vec![Ok(record(Some("refs/tags/v1"), Some(1), Some(2)))]).unwrap();
    assert_eq!(listed[0].target, oid(1));
}

#[test]
fn a_listing_fails_at_its_first_unreadable_record() {
    let failed = collect_local_refs(vec![
        Ok(record(Some("refs/heads/a"), Some(1), None)),
        Err(unreadable("first")),
        Err(unreadable("second")),
    ]);
    let error = failed.unwrap_err();
    assert_eq!(error.message, "first");
    assert_eq!((error.code, error.class), (-1, 2));
}

#[test]
fn references_are_told_apart() {
    let refs = vec![
        entry("refs/heads/gto-keep/x", 1),
        entry("refs/heads/gto-tag-tmp/x", 2),
        entry("refs/heads/gto/x", 3),
        entry("refs/heads/main", 4),
        entry("refs/heads/other", 5),
        entry("refs/tags/v1", 6),
    ];
    assert_eq!(
        walk_name_list(&refs),
        vec![
            "refs/heads/gto-keep/x",
            "refs/heads/gto/x",
            "refs/heads/main",
            "refs/heads/other",
        ]
    );
    let tags: Vec<String> = tag_list(&refs).into_iter().map(|tag| tag.name).collect();
    assert_eq!(tags, vec!["refs/tags/v1"]);
    let heads: Vec<String> = movable_heads(&refs, oid(4))
        .into_iter()
        .map(|head| head.name)
        .collect();
    assert_eq!(heads, vec!["refs/heads/gto-tag-tmp/x", "refs/heads/other"]);
}

#[test]
fn commits_without_branches_are_found_once() {
    let refs = vec![entry("refs/heads/main", 2), entry("refs/tags/v1", 3)];
    let commits = vec![oid(1), oid(3), oid(2), oid(4), oid(3)];
    let missing: Vec<Oid> = unbranched_commits(&commits, &refs, oid(1)).into_iter().collect();
    assert_eq!(missing, vec![oid(3), oid(4)]);
}

#[test]
fn temporary_branches_are_found_among_all_records() {
    let branches = temporary_branch_list(&vec![
        Ok(record(Some("refs/heads/gto/x"), None, None)),
        Err(unreadable("unreadable")),
        Ok(record(None, Some(1), None)),
        Ok(record(Some("refs/heads/gto-keep/x"), Some(1), None)),
        Ok(record(Some("refs/heads/gto"), Some(1), None)),
        Ok(record(Some("refs/heads/gto/y"), Some(1), None)),
        Ok(record(Some("refs/tags/gto/y"), Some(1), None)),
    ]);
    assert_eq!(branches, vec!["gto/x", "gto/y"]);
}

#[test]
fn the_root_goes_in_front_of_a_walk() {
    assert_eq!(add_root(vec![oid(2), oid(3)], oid(1)), vec![oid(1), oid(2), oid(3)]);
    assert_eq!(add_root(vec![oid(2), oid(1)], oid(1)), vec![oid(2), oid(1)]);
    assert!(!has_others(&vec![oid(1)], oid(1)));
    assert!(!has_others(&vec![], oid(1)));
    assert!(has_others(&vec![oid(1), oid(2)], oid(1)));
}

#[test]
fn a_pass_looks_at_commits_with_another_canonical() {
    let chosen = map(&[(1, 9), (2, 2), (3, 2)]);
    let commits = vec![oid(1), oid(2), oid(3), oid(4)];
    let found: Vec<(Oid, Oid)> = candidate_list(&commits, &chosen, oid(1))
        .into_iter()
        .map(|candidate| (candidate.commit, candidate.canonical))
        .collect();
    assert_eq!(found, vec![(oid(3), oid(2))]);
}

#[test]
fn rewrites_are_followed_to_their_end() {
    let rewrites = map(&[(1, 2), (2, 3), (4, 4)]);
    assert_eq!(follow(&rewrites, oid(1)), Some(oid(3)));
    assert_eq!(follow(&rewrites, oid(3)), Some(oid(3)));
    assert_eq!(follow(&rewrites, oid(4)), Some(oid(4)));
    assert_eq!(follow(&rewrites, oid(5)), Some(oid(5)));
}

#[test]
fn rewrites_in_a_circle_have_no_end() {
    let rewrites = map(&[(1, 2), (2, 3), (3, 2)]);
    assert_eq!(follow(&rewrites, oid(1)), None);
    assert!(matches!(
        tag_target(&rewrites, &map(&[(1, 7)]), oid(1)),
        Target::Endless
    ));
}

#[test]
fn a_tag_prefers_rewrites_to_duplicates() {
    let rewrites = map(&[(1, 2)]);
    let duplicates = map(&[(1, 5), (3, 6)]);
    assert!(matches!(
        tag_target(&rewrites, &duplicates, oid(1)),
        Target::Moves(target) if target == oid(2)
    ));
    assert!(matches!(
        tag_target(&rewrites, &duplicates, oid(3)),
        Target::Moves(target) if target == oid(6)
    ));
    assert!(matches!(
        tag_target(&rewrites, &duplicates, oid(4)),
        Target::Stays
    ));
}
