use dejadupe::{
    copy_stats, copy_unique, first_conflict, hash_bytes, relative_target, sort_by_path,
    trees_overlap, CopyConflict, CopyError, FileInfo, HashedFile,
};

fn file(path: &str, size: u64) -> FileInfo {
    FileInfo { path: path.into(), size, modified: 0 }
}

fn hashed(path: &str, contents: &[u8]) -> HashedFile {
    HashedFile { hash: hash_bytes(contents), file: file(path, contents.len() as u64) }
}

fn bytes(s: &str) -> Vec<u8> {
    s.as_bytes().to_vec()
}

#[test]
fn plan_copies_each_content_once() {
    let source = bytes("/tmp/x/source");
    let destination = bytes("/tmp/x/destination");
    let existing = vec![hash_bytes(b"existing")];
    let sources = vec![
        hashed("/tmp/x/source/a", b"same"),
        hashed("/tmp/x/source/b", b"same"),
        hashed("/tmp/x/source/c", b"existing"),
    ];
    let plan = copy_unique(&source, &destination, &existing, &sources).unwrap();
    assert_eq!(plan.copies.len(), 1);
    assert_eq!(plan.copies[0].file.path, bytes("/tmp/x/source/a"));
    assert_eq!(plan.copies[0].target, Some(bytes("/tmp/x/destination/a")));
    let stats = copy_stats(plan.source_count, &vec![4]).unwrap();
    assert_eq!(stats.copied_files, 1);
    assert_eq!(stats.skipped_files, 2);
    assert_eq!(stats.copied_bytes, 4);
}

#[test]
fn plan_skips_source_and_destination_duplicates() {
    let source = bytes("/r/source");
    let destination = bytes("/r/destination");
    let existing = vec![hash_bytes(b"same")];
    let mut files = vec![
        file("/r/source/nested/unique.txt", 6),
        file("/r/source/b.txt", 4),
        file("/r/source/a.txt", 4),
    ];
    files = sort_by_path(files);
    let contents: Vec<&[u8]> = files
        .iter()
        .map(|f| if f.path.ends_with(b"unique.txt") { &b"unique"[..] } else { &b"same"[..] })
        .collect();
    let sources: Vec<HashedFile> = files
        .into_iter()
        .zip(contents)
        .map(|(f, c)| HashedFile { hash: hash_bytes(c), file: f })
        .collect();
    let plan = copy_unique(&source, &destination, &existing, &sources).unwrap();
    assert_eq!(plan.copies.len(), 1);
    assert_eq!(plan.copies[0].target, Some(bytes("/r/destination/nested/unique.txt")));
    assert_eq!(plan.source_count, 3);
}

#[test]
fn plan_copies_in_source_order_and_targets_conflicting_paths() {
    let source = bytes("/r/source");
    let destination = bytes("/r/destination");
    let existing = vec![hash_bytes(b"destination")];
    let sources = vec![hashed("/r/source/conflict.txt", b"source"), hashed("/r/source/other.txt", b"other")];
    let plan = copy_unique(&source, &destination, &existing, &sources).unwrap();
    assert_eq!(plan.copies.len(), 2);
    assert_eq!(plan.copies[0].target, Some(bytes("/r/destination/conflict.txt")));
    assert_eq!(plan.copies[1].target, Some(bytes("/r/destination/other.txt")));
    // conflict.txt exists in the destination, so nothing is copied.
    assert_eq!(first_conflict(&plan, &vec![true, false]), Some(CopyConflict::TargetExists(0)));
    assert_eq!(first_conflict(&plan, &vec![false, false]), None);
}

#[test]
fn copy_rejects_overlapping_trees_in_the_plan() {
    let source = bytes("/r/source");
    let destination = bytes("/r/source/destination");
    let plan = copy_unique(&source, &destination, &Vec::new(), &Vec::new());
    assert_eq!(plan.err(), Some(CopyError::Overlap));
    assert!(trees_overlap(&destination, &source));
}

#[test]
fn overlap_follows_path_components() {
    assert!(!trees_overlap(&bytes("/a"), &bytes("/ab")));
    assert!(trees_overlap(&bytes("/a"), &bytes("/a/b")));
    assert!(trees_overlap(&bytes("/a"), &bytes("/a")));
    assert!(trees_overlap(&bytes("/"), &bytes("/x/y")));
    assert!(!trees_overlap(&bytes("/x/a"), &bytes("/x/b")));
}

#[test]
fn targets_keep_the_relative_path() {
    assert_eq!(
        relative_target(&bytes("/src"), &bytes("/dst"), &bytes("/src/n/u.txt")),
        Some(bytes("/dst/n/u.txt"))
    );
    assert_eq!(relative_target(&bytes("/"), &bytes("/dst"), &bytes("/f")), Some(bytes("/dst/f")));
    assert_eq!(relative_target(&bytes("/src"), &bytes("/"), &bytes("/src/f")), Some(bytes("/f")));
    assert_eq!(relative_target(&bytes("/src"), &bytes("/dst"), &bytes("/srcx/f")), None);
    assert_eq!(relative_target(&bytes("/src"), &bytes("/dst"), &bytes("/other/f")), None);
}

#[test]
fn files_outside_the_source_get_no_target() {
    let plan = copy_unique(
        &bytes("/r/source"),
        &bytes("/r/destination"),
        &Vec::new(),
        &vec![hashed("/elsewhere/f", b"f")],
    )
    .unwrap();
    assert_eq!(plan.copies.len(), 1);
    assert_eq!(plan.copies[0].target, None);
    assert_eq!(first_conflict(&plan, &vec![false]), Some(CopyConflict::OutsideSource(0)));
}

#[test]
fn sort_by_path_orders_components() {
    let files = vec![file("/r/a.b", 1), file("/r/b", 1), file("/r/a/b", 1), file("/r/a", 1)];
    let sorted = sort_by_path(files);
    let names: Vec<Vec<u8>> = sorted.into_iter().map(|f| f.path).collect();
    assert_eq!(names, vec![bytes("/r/a"), bytes("/r/a/b"), bytes("/r/a.b"), bytes("/r/b")]);
}

#[test]
fn copy_stats_sum_written_bytes() {
    let stats = copy_stats(5, &vec![1, 2, 3]).unwrap();
    assert_eq!(stats.copied_files, 3);
    assert_eq!(stats.skipped_files, 2);
    assert_eq!(stats.copied_bytes, 6);
    assert_eq!(copy_stats(2, &vec![u64::MAX, 1]), None);
    assert_eq!(copy_stats(0, &Vec::new()).unwrap().copied_bytes, 0);
}

#[test]
fn second_copy_of_unchanged_trees_copies_nothing() {
    let source = bytes("/r/source");
    let destination = bytes("/r/destination");
    let existing = vec![hash_bytes(b"old")];
    let sources = vec![
        hashed("/r/source/a", b"same"),
        hashed("/r/source/b", b"same"),
        hashed("/r/source/c", b"old"),
        hashed("/r/source/d", b"new"),
    ];
    let first = copy_unique(&source, &destination, &existing, &sources).unwrap();
    assert_eq!(first.copies.len(), 2);
    let mut after = existing.clone();
    for planned in &first.copies {
        let content = sources.iter().find(|s| s.file.path == planned.file.path).unwrap().hash;
        after.push(content);
    }
    let second = copy_unique(&source, &destination, &after, &sources).unwrap();
    assert!(second.copies.is_empty());
    let stats = copy_stats(second.source_count, &Vec::new()).unwrap();
    assert_eq!(stats.copied_files, 0);
    assert_eq!(stats.skipped_files, 4);
    assert_eq!(stats.copied_bytes, 0);
}
