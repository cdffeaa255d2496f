use nofs::conflict::{
    conflicts_from_groups, files_differ, single_file_conflict, sort_copies, BranchConflict,
    FileConflict,
};

fn copy(branch: &str, path: &str, size: u64, hash: Option<&str>, mtime: Option<u64>) -> BranchConflict {
    BranchConflict {
        branch_name: branch.to_string(),
        path: path.to_string(),
        size,
        hash: hash.map(|h| h.to_string()),
        mtime,
        ctime: None,
    }
}

#[test]
fn test_branch_conflict_debug() {
    let bc = BranchConflict {
        branch_name: "test".to_string(),
        path: "/test/path".to_string(),
        size: 100,
        hash: Some("abc123".to_string()),
        mtime: Some(12345),
        ctime: Some(12345),
    };
    let debug_str = format!("{bc:?}");
    assert!(debug_str.contains("test"));
    assert!(debug_str.contains("abc123"));
}

#[test]
fn test_file_conflict_debug() {
    let fc = FileConflict { name: "test.txt".to_string(), branches: vec![] };
    let debug_str = format!("{fc:?}");
    assert!(debug_str.contains("test.txt"));
}

#[test]
fn test_files_differ_different_size() {
    let bc1 = copy("branch1", "/path1", 100, None, None);
    let bc2 = copy("branch2", "/path2", 200, None, None);
    assert!(files_differ(&[bc1, bc2], false));
}

#[test]
fn test_files_differ_single_file() {
    let bc = copy("branch1", "/path1", 100, None, None);
    assert!(!files_differ(&[bc], false));
}

#[test]
fn test_files_differ_empty() {
    assert!(!files_differ(&[], false));
}

#[test]
fn test_branch_conflict_sorting_by_mtime() {
    let bc1 = BranchConflict {
        branch_name: "branch1".to_string(),
        path: "/path1".to_string(),
        size: 100,
        hash: None,
        mtime: Some(1000),
        ctime: None,
    };
    let bc2 = BranchConflict {
        branch_name: "branch2".to_string(),
        path: "/path2".to_string(),
        size: 100,
        hash: None,
        mtime: Some(2000),
        ctime: None,
    };

    let conflicts = sort_copies(vec![bc1, bc2]);

    assert_eq!(conflicts.first().unwrap().mtime, Some(2000));
    assert_eq!(conflicts.get(1).unwrap().mtime, Some(1000));
}

#[test]
fn test_files_differ_with_mtime() {
    let bc1 = BranchConflict {
        branch_name: "branch1".to_string(),
        path: "/path1".to_string(),
        size: 100,
        hash: Some("hash1".to_string()),
        mtime: Some(1000),
        ctime: Some(500),
    };
    let bc2 = BranchConflict {
        branch_name: "branch2".to_string(),
        path: "/path2".to_string(),
        size: 100,
        hash: Some("hash2".to_string()),
        mtime: Some(2000),
        ctime: Some(600),
    };

    assert!(files_differ(&[bc1.clone(), bc2.clone()], true));
    assert!(!files_differ(&[bc1, bc2], false));
}

#[test]
fn test_files_differ_same_hash() {
    let hash = "same_hash".to_string();
    let bc1 = copy("branch1", "/path1", 100, Some(&hash), None);
    let bc2 = copy("branch2", "/path2", 100, Some(&hash), None);
    assert!(!files_differ(&[bc1, bc2], true));
}

#[test]
fn test_files_differ_with_none_hashes() {
    let bc1 = copy("branch1", "/path1", 100, None, None);
    let bc2 = copy("branch2", "/path2", 100, None, None);
    assert!(!files_differ(&[bc1, bc2], true));
}

#[test]
fn test_branch_conflict_with_none_metadata() {
    let bc = BranchConflict {
        branch_name: "test".to_string(),
        path: "/test/path".to_string(),
        size: 100,
        hash: None,
        mtime: None,
        ctime: None,
    };
    let conflicts = sort_copies(vec![bc.clone(), bc.clone()]);
    assert_eq!(conflicts.len(), 2);
}

#[test]
fn test_files_differ_with_three_branches() {
    let bc1 = copy("branch1", "/path1", 100, None, None);
    let bc2 = copy("branch2", "/path2", 200, None, None);
    let bc3 = copy("branch3", "/path3", 100, None, None);
    assert!(files_differ(&[bc1.clone(), bc2.clone(), bc3.clone()], false));

    let bc4 = copy("branch4", "/path4", 100, None, None);
    assert!(!files_differ(&[bc1, bc3, bc4], false));
}

#[test]
fn hash_missing_on_later_copy_differs() {
    let a = copy("b1", "/p1", 10, Some("h"), None);
    let b = copy("b2", "/p2", 10, None, None);
    assert!(files_differ(&[a.clone(), b.clone()], true));
    assert!(!files_differ(&[b, a], true));
}

#[test]
fn copies_sorted_newest_first_then_by_path() {
    let sorted = sort_copies(vec![
        copy("b", "/z", 1, None, None),
        copy("b", "/b", 1, None, Some(5)),
        copy("b", "/a", 1, None, Some(5)),
        copy("b", "/c", 1, None, Some(9)),
    ]);
    let paths: Vec<&str> = sorted.iter().map(|c| c.path.as_str()).collect();
    assert_eq!(paths, vec!["/c", "/a", "/b", "/z"]);
}

#[test]
fn conflicts_from_groups_keeps_differing_ordered_by_name() {
    let groups = vec![
        ("zebra.txt".to_string(), vec![copy("1", "/1/zebra.txt", 12, None, Some(1)), copy("2", "/2/zebra.txt", 9, None, Some(2))]),
        ("same.txt".to_string(), vec![copy("1", "/1/same.txt", 12, None, None), copy("2", "/2/same.txt", 12, None, None)]),
        ("alone.txt".to_string(), vec![copy("1", "/1/alone.txt", 3, None, None)]),
        ("apple.txt".to_string(), vec![copy("1", "/1/apple.txt", 11, None, None), copy("2", "/2/apple.txt", 9, None, None)]),
    ];
    let conflicts = conflicts_from_groups(groups, false);
    assert_eq!(conflicts.len(), 2);
    assert_eq!(conflicts[0].name, "apple.txt");
    assert_eq!(conflicts[1].name, "zebra.txt");
    assert_eq!(conflicts[1].branches[0].path, "/2/zebra.txt");
}

#[test]
fn single_file_conflict_named_after_last_component() {
    let files = vec![copy("1", "/1/docs/diff.txt", 12, None, None), copy("2", "/2/docs/diff.txt", 9, None, None)];
    let c = single_file_conflict(files, "docs/diff.txt", false).unwrap();
    assert_eq!(c.name, "diff.txt");
    assert_eq!(c.branches.len(), 2);
    let same = vec![copy("1", "/1/x", 4, None, None), copy("2", "/2/x", 4, None, None)];
    assert!(single_file_conflict(same, "x", false).is_none());
    let one = vec![copy("1", "/1/x", 4, None, None)];
    assert!(single_file_conflict(one, "x", false).is_none());
}
