use dejadupe::{
    deletion_count, group_duplicates, hash_bytes, keeper_index, plan_deletions, reclaimed_bytes,
    select_keeper, size_candidates, total_reclaimable, ContentHash, FileInfo, HashedFile,
    KeepPolicy,
};

fn file(path: &str, size: u64, modified: i128) -> FileInfo {
    FileInfo { path: path.into(), size, modified }
}

fn hashed(path: &str, contents: &[u8], modified: i128) -> HashedFile {
    HashedFile {
        hash: hash_bytes(contents),
        file: file(path, contents.len() as u64, modified),
    }
}

fn paths(files: &[FileInfo]) -> Vec<String> {
    files.iter().map(|f| String::from_utf8(f.path.clone()).unwrap()).collect()
}

#[test]
fn keeps_newest_file() {
    let files = [
        FileInfo { path: "old".into(), size: 1, modified: 0 },
        FileInfo { path: "new".into(), size: 1, modified: 1_000_000_000 },
    ];

    assert_eq!(keeper_index(&files), Some(1));
}

#[test]
fn keeper_of_no_files_is_none() {
    let files: [FileInfo; 0] = [];
    assert_eq!(keeper_index(&files), None);
    assert_eq!(select_keeper(&files, KeepPolicy::Oldest), None);
}

#[test]
fn keep_oldest_picks_the_earliest_copy() {
    let files = [file("/t/new.txt", 4, 60), file("/t/old.txt", 4, 0)];
    assert_eq!(select_keeper(&files, KeepPolicy::Oldest), Some(1));
    assert_eq!(select_keeper(&files, KeepPolicy::Newest), Some(0));
}

#[test]
fn keeper_ties_go_to_the_smaller_path() {
    let files = [file("/t/b", 4, 7), file("/t/a", 4, 7), file("/t/c", 4, 7)];
    assert_eq!(select_keeper(&files, KeepPolicy::Newest), Some(1));
    assert_eq!(select_keeper(&files, KeepPolicy::Oldest), Some(1));
}

#[test]
fn keeper_among_identical_entries_is_last_for_newest_and_first_for_oldest() {
    let files = [file("/t/a", 4, 7), file("/t/a", 4, 7)];
    assert_eq!(select_keeper(&files, KeepPolicy::Newest), Some(1));
    assert_eq!(select_keeper(&files, KeepPolicy::Oldest), Some(0));
}

#[test]
fn size_candidates_keep_files_with_a_size_mate_in_order() {
    let files = vec![
        file("/r/a.txt", 4, 0),
        file("/r/unique.txt", 9, 0),
        file("/r/b.txt", 4, 0),
        file("/r/c.txt", 3, 0),
        file("/r/d.txt", 3, 0),
    ];
    let candidates = size_candidates(&files);
    assert_eq!(paths(&candidates), vec!["/r/a.txt", "/r/b.txt", "/r/c.txt", "/r/d.txt"]);
}

#[test]
fn size_candidates_of_distinct_sizes_are_empty() {
    let files = vec![file("/r/a.txt", 3, 0), file("/r/b.txt", 4, 0)];
    assert!(size_candidates(&files).is_empty());
}

#[test]
fn scan_scenario_reports_one_group_of_four_reclaimable_bytes() {
    let files = vec![
        file("/r/a.txt", 4, 0),
        file("/r/b.txt", 4, 0),
        file("/r/unique.txt", 9, 0),
    ];
    let candidates = size_candidates(&files);
    assert_eq!(candidates.len(), 2);
    let contents = [b"same", b"same"];
    let entries: Vec<HashedFile> = candidates
        .into_iter()
        .zip(contents.iter())
        .map(|(f, c)| HashedFile { hash: hash_bytes(&c[..]), file: f })
        .collect();
    let groups = group_duplicates(entries).unwrap();
    assert_eq!(groups.len(), 1);
    assert_eq!(paths(&groups[0].files), vec!["/r/a.txt", "/r/b.txt"]);
    assert_eq!(groups[0].reclaimable_bytes, 4);
    assert_eq!(total_reclaimable(&groups), Some(4));
}

#[test]
fn groups_list_files_in_path_order_and_most_reclaimable_first() {
    let entries = vec![
        hashed("/r/z/one", b"x", 0),
        hashed("/r/b", b"longer", 0),
        hashed("/r/y", b"x", 0),
        hashed("/r/a", b"longer", 0),
        hashed("/r/solo", b"nothing alike", 0),
        hashed("/r/a.b", b"x", 0),
    ];
    let groups = group_duplicates(entries).unwrap();
    assert_eq!(groups.len(), 2);
    // Two six-byte copies free six bytes; three one-byte copies free two.
    assert_eq!(groups[0].hash, hash_bytes(b"longer"));
    assert_eq!(paths(&groups[0].files), vec!["/r/a", "/r/b"]);
    assert_eq!(groups[0].reclaimable_bytes, 6);
    assert_eq!(groups[1].hash, hash_bytes(b"x"));
    assert_eq!(paths(&groups[1].files), vec!["/r/a.b", "/r/y", "/r/z/one"]);
    assert_eq!(groups[1].reclaimable_bytes, 2);
}

#[test]
fn groups_sort_by_reclaimable_bytes_descending() {
    let entries = vec![
        hashed("/r/s1", b"ab", 0),
        hashed("/r/s2", b"ab", 0),
        hashed("/r/l1", b"abcdef", 0),
        hashed("/r/l2", b"abcdef", 0),
    ];
    let groups = group_duplicates(entries).unwrap();
    assert_eq!(groups.len(), 2);
    assert_eq!(groups[0].reclaimable_bytes, 6);
    assert_eq!(groups[1].reclaimable_bytes, 2);
    assert_eq!(paths(&groups[0].files), vec!["/r/l1", "/r/l2"]);
}

#[test]
fn path_order_puts_the_separator_first() {
    let entries = vec![
        hashed("/r/a.b", b"q", 0),
        hashed("/r/a/b", b"q", 0),
        hashed("/r/a", b"q", 0),
    ];
    let groups = group_duplicates(entries).unwrap();
    assert_eq!(paths(&groups[0].files), vec!["/r/a", "/r/a/b", "/r/a.b"]);
    assert_eq!(groups[0].reclaimable_bytes, 2);
}

#[test]
fn no_groups_without_shared_digests() {
    let entries = vec![hashed("/r/a", b"one", 0), hashed("/r/b", b"two", 0)];
    assert!(group_duplicates(entries).unwrap().is_empty());
    assert!(group_duplicates(Vec::new()).unwrap().is_empty());
}

#[test]
fn group_reclaim_overflow_is_reported() {
    let h = ContentHash { hi: 1, lo: 2 };
    let entries = vec![
        HashedFile { hash: h, file: file("/r/a", u64::MAX, 0) },
        HashedFile { hash: h, file: file("/r/b", u64::MAX, 0) },
        HashedFile { hash: h, file: file("/r/c", u64::MAX, 0) },
    ];
    assert!(group_duplicates(entries).is_none());
}

#[test]
fn dry_run_scenario_counts_one_deletion_and_keeps_the_newest() {
    let entries = vec![hashed("/r/old.txt", b"same", 0), hashed("/r/new.txt", b"same", 60)];
    let groups = group_duplicates(entries).unwrap();
    assert_eq!(deletion_count(&groups), Some(1));
    let keepers = plan_deletions(&groups, KeepPolicy::Newest).unwrap();
    assert_eq!(keepers.len(), 1);
    assert_eq!(groups[0].files[keepers[0]].path, b"/r/new.txt".to_vec());
    assert_eq!(reclaimed_bytes(&groups, &keepers), Some(4));
}

#[test]
fn keep_oldest_scenario_keeps_the_old_copy() {
    let entries = vec![hashed("/r/old.txt", b"same", 0), hashed("/r/new.txt", b"same", 60)];
    let groups = group_duplicates(entries).unwrap();
    let keepers = plan_deletions(&groups, KeepPolicy::Oldest).unwrap();
    assert_eq!(groups[0].files[keepers[0]].path, b"/r/old.txt".to_vec());
}

#[test]
fn deletion_plan_counts_all_but_one_per_group() {
    let entries = vec![
        hashed("/r/a1", b"aa", 3),
        hashed("/r/a2", b"aa", 5),
        hashed("/r/a3", b"aa", 4),
        hashed("/r/b1", b"bbb", 1),
        hashed("/r/b2", b"bbb", 2),
    ];
    let groups = group_duplicates(entries).unwrap();
    assert_eq!(deletion_count(&groups), Some(3));
    let keepers = plan_deletions(&groups, KeepPolicy::Newest).unwrap();
    let total: u64 = groups.iter().map(|g| g.reclaimable_bytes).sum();
    assert_eq!(reclaimed_bytes(&groups, &keepers), Some(total));
    assert_eq!(total_reclaimable(&groups), Some(total));
}

#[test]
fn empty_groups_cannot_be_planned() {
    let groups = vec![dejadupe::DuplicateGroup {
        hash: ContentHash { hi: 0, lo: 0 },
        files: Vec::new(),
        reclaimable_bytes: 0,
    }];
    assert_eq!(deletion_count(&groups), None);
    assert!(plan_deletions(&groups, KeepPolicy::Newest).is_none());
}

#[test]
fn totals_that_overflow_are_none() {
    let group = |name: &str| dejadupe::DuplicateGroup {
        hash: ContentHash { hi: 0, lo: 0 },
        files: vec![file(name, u64::MAX, 0), file(name, u64::MAX, 0)],
        reclaimable_bytes: u64::MAX,
    };
    let groups = vec![group("/a"), group("/b")];
    assert_eq!(total_reclaimable(&groups), None);
    assert_eq!(reclaimed_bytes(&groups, &vec![0, 0]), None);
    assert_eq!(deletion_count(&groups), Some(2));
}

#[test]
fn report_does_not_depend_on_input_order() {
    let make = || {
        vec![
            hashed("/r/a", b"one", 0),
            hashed("/r/b", b"two!", 0),
            hashed("/r/c", b"one", 0),
            hashed("/r/d", b"two!", 0),
            hashed("/r/e", b"one", 0),
        ]
    };
    let forward = group_duplicates(make()).unwrap();
    let mut reversed_input = make();
    reversed_input.reverse();
    let backward = group_duplicates(reversed_input).unwrap();
    assert_eq!(forward.len(), backward.len());
    for (g1, g2) in forward.iter().zip(&backward) {
        assert_eq!(g1.hash, g2.hash);
        assert_eq!(g1.files, g2.files);
        assert_eq!(g1.reclaimable_bytes, g2.reclaimable_bytes);
    }
}

#[test]
fn rescan_after_deleting_non_keepers_finds_no_duplicates() {
    let entries = vec![
        hashed("/r/a", b"one", 1),
        hashed("/r/b", b"one", 2),
        hashed("/r/c", b"two", 3),
        hashed("/r/d", b"two", 4),
        hashed("/r/e", b"solo", 5),
    ];
    let groups = group_duplicates(entries).unwrap();
    let keepers = plan_deletions(&groups, KeepPolicy::Newest).unwrap();
    let survivors = vec![
        hashed("/r/b", b"one", 2),
        hashed("/r/d", b"two", 4),
        hashed("/r/e", b"solo", 5),
    ];
    for (group, &k) in groups.iter().zip(&keepers) {
        assert!(survivors.iter().any(|s| s.file.path == group.files[k].path));
    }
    assert!(group_duplicates(survivors).unwrap().is_empty());
}
