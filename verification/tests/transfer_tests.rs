use nofs::commands::find::{find_matches, FoundEntry};
use nofs::commands::du::{directory_usage, WalkEntry};
use nofs::commands::cmp::cmp_output;
use nofs::commands::diff::{diff_file_output, diff_output};
use nofs::commands::grep::line_matches;
use nofs::commands::cmp::{compare_contents, ByteDifference, CompareStep};
use nofs::commands::grep::{selected_lines, LinePattern};
use nofs::commands::cp::{
    parse_file_over_file, FileComparison, FileOverFileMode, FileOverFileStrategy,
    FolderConflictMode,
};
use nofs::commands::transfer::{
    destination_plan, file_over_file_plan, file_over_folder_plan, final_destination,
    folder_over_file_step, require_sources, resolve_dest_path, resolve_transfer_path, FileStep,
    FolderStep,
};
use nofs::commands::tree::{
    child_prefix, depth_allowed, entry_shown, merge_entry, tree_line, tree_root, TreeNode,
    TreeOptions,
};
use nofs::conflict::{conflicts_among, group_copies, BranchConflict};
use nofs::pool::PoolManager;
use nofs::utils::{hash_plan, HashConfig};
use std::io::Write;
use std::path::{Path, PathBuf};
use tempfile::TempDir;

fn facts(src_size: u64, dest_size: u64) -> FileComparison {
    FileComparison {
        hashes_match: false,
        src_size,
        dest_size,
        src_modified: None,
        dest_modified: None,
        src_created: None,
        dest_created: None,
    }
}

fn make_dir(root: &Path, name: &str) -> PathBuf {
    tempfile::Builder::new().prefix(name).rand_bytes(0).tempdir_in(root).unwrap().keep()
}

fn make_file(dir: &Path, name: &str) {
    let mut f = tempfile::Builder::new().prefix(name).rand_bytes(0).tempfile_in(dir).unwrap();
    f.write_all(b"data").unwrap();
    f.keep().unwrap();
}

fn copy(branch: &str, path: &str, size: u64, mtime: Option<u64>) -> BranchConflict {
    BranchConflict {
        branch_name: branch.to_string(),
        path: path.to_string(),
        size,
        hash: None,
        mtime,
        ctime: None,
    }
}

#[test]
fn first_matching_rule_decides_the_plan() {
    let strategy = parse_file_over_file("skip-larger delete-dest").unwrap();
    let plan = file_over_file_plan(&strategy, &facts(10, 5));
    assert_eq!(plan.step, FileStep::Skip);
    assert_eq!(plan.reason, "source is larger than destination");
    assert!(plan.counts_skipped);

    let plan = file_over_file_plan(&strategy, &facts(5, 10));
    assert_eq!(plan.step, FileStep::ReplaceDestination);
    assert_eq!(plan.reason, "strategy: delete-dest");
    assert!(!plan.counts_skipped);
}

#[test]
fn required_mode_plans() {
    let cases = [
        (FileOverFileMode::Skip, FileStep::Skip, "strategy: skip", true),
        (FileOverFileMode::RenameSrc, FileStep::TransferRenamed, "strategy: rename-src", false),
        (FileOverFileMode::RenameDest, FileStep::MoveDestinationAside, "strategy: rename-dest", false),
        (FileOverFileMode::DeleteSrc, FileStep::DeleteSource, "strategy: delete-src", true),
        (FileOverFileMode::DeleteDest, FileStep::ReplaceDestination, "strategy: delete-dest", false),
    ];
    for (mode, step, reason, skipped) in cases {
        let strategy = FileOverFileStrategy { rules: vec![], required: mode };
        let plan = file_over_file_plan(&strategy, &facts(1, 1));
        assert_eq!(plan.step, step);
        assert_eq!(plan.reason, reason);
        assert_eq!(plan.counts_skipped, skipped);
    }
}

#[test]
fn delete_src_rule_counts_as_skipped() {
    let strategy = parse_file_over_file("delete-src-size rename-dest").unwrap();
    let plan = file_over_file_plan(&strategy, &facts(3, 3));
    assert_eq!(plan.step, FileStep::DeleteSource);
    assert_eq!(plan.reason, "sizes match");
    assert!(plan.counts_skipped);
    let plan = file_over_file_plan(&strategy, &facts(3, 4));
    assert_eq!(plan.step, FileStep::MoveDestinationAside);
}

#[test]
fn file_over_folder_plans() {
    assert_eq!(file_over_folder_plan(FolderConflictMode::Merge).step, FileStep::TransferInto);
    assert_eq!(file_over_folder_plan(FolderConflictMode::Skip).step, FileStep::Skip);
    assert_eq!(file_over_folder_plan(FolderConflictMode::RenameSrc).step, FileStep::TransferRenamed);
    let plan = file_over_folder_plan(FolderConflictMode::RenameDest);
    assert_eq!(plan.step, FileStep::MoveDestinationAside);
    assert_eq!(plan.reason, "strategy: rename-dest");
    assert!(!file_over_folder_plan(FolderConflictMode::DeleteSrc).counts_skipped);
    assert_eq!(
        file_over_folder_plan(FolderConflictMode::DeleteDest).step,
        FileStep::ReplaceDestination
    );
}

#[test]
fn folder_over_file_steps() {
    assert_eq!(folder_over_file_step(FolderConflictMode::Merge), FolderStep::MoveDestinationAside);
    assert_eq!(folder_over_file_step(FolderConflictMode::RenameDest), FolderStep::MoveDestinationAside);
    assert_eq!(folder_over_file_step(FolderConflictMode::RenameSrc), FolderStep::IntoRenamedFolder);
    assert_eq!(folder_over_file_step(FolderConflictMode::DeleteDest), FolderStep::ReplaceDestination);
    assert_eq!(folder_over_file_step(FolderConflictMode::DeleteSrc), FolderStep::DeleteSource);
    assert_eq!(folder_over_file_step(FolderConflictMode::Skip), FolderStep::Skip);
}

#[test]
fn destination_checks() {
    assert_eq!(
        require_sources(0).unwrap_err().to_string(),
        "Copy/Move error: At least one source is required"
    );
    assert!(require_sources(1).is_ok());
    assert_eq!(
        destination_plan(2, true, false, false).unwrap_err().to_string(),
        "Copy/Move error: Destination must be a directory when copying multiple sources"
    );
    assert!(destination_plan(2, false, false, false).unwrap());
    assert!(!destination_plan(2, false, false, true).unwrap());
    assert!(!destination_plan(1, false, false, false).unwrap());
    assert!(!destination_plan(2, true, true, false).unwrap());
    assert!(!destination_plan(1, true, false, false).unwrap());
}

#[test]
fn landing_places() {
    assert_eq!(final_destination("/dst", "/src/a.txt", 2, false, false), "/dst/a.txt");
    assert_eq!(final_destination("/dst", "/src/a.txt", 1, true, true), "/dst/a.txt");
    assert_eq!(final_destination("/dst", "/src/a.txt", 1, false, false), "/dst");
    assert_eq!(final_destination("/dst/", "/src/dir/", 1, true, true), "/dst/dir");
}

#[test]
fn transfer_paths_resolve_through_the_share() {
    let root = TempDir::new().unwrap();
    let d1 = make_dir(root.path(), "d1");
    let d2 = make_dir(root.path(), "d2");
    make_file(&d2, "a.txt");
    let m = PoolManager::from_paths(&format!("{}=RO,{}", d1.display(), d2.display()), "ff", "0")
        .unwrap();
    let pool = m.default_pool().unwrap();

    let plain = resolve_transfer_path("/tmp/x", Some(pool), false).unwrap();
    assert_eq!(plain.path, "/tmp/x");
    assert_eq!(plain.branch_index, None);

    let read = resolve_transfer_path("default:a.txt", Some(pool), false).unwrap();
    assert_eq!(read.path, format!("{}/a.txt", d2.display()));
    assert_eq!(read.branch_index, Some(1));

    let missing = resolve_transfer_path("default:b.txt", Some(pool), false).unwrap_err();
    assert_eq!(missing.to_string(), "Copy/Move error: File not found in share 'default'");

    let created = resolve_transfer_path("default:new.txt", Some(pool), true).unwrap();
    assert_eq!(created.path, format!("{}/new.txt", d2.display()));
    assert_eq!(created.branch_index, Some(1));

    let other = resolve_transfer_path("media:x", Some(pool), false).unwrap_err();
    assert_eq!(other.to_string(), "Copy/Move error: Share 'media' not found or has no branches");
    assert!(resolve_transfer_path("media:x", None, true).is_err());

    assert_eq!(resolve_dest_path("default:out", Some(pool), Some(1)).unwrap(), format!("{}/out", d2.display()));
    assert_eq!(resolve_dest_path("default:out", Some(pool), Some(0)).unwrap(), format!("{}/out", d2.display()));
    assert_eq!(resolve_dest_path("./a:b/c", Some(pool), None).unwrap(), "./a:b/c");
    assert!(resolve_dest_path("other:out", Some(pool), None).is_err());
}

#[test]
fn tree_levels_merge_in_name_order() {
    let mut level: Vec<TreeNode> = Vec::new();
    assert_eq!(merge_entry(&mut level, "b.txt", true, Some(3), "/d1", true), 0);
    assert_eq!(merge_entry(&mut level, "a", false, None, "/d1", true), 0);
    assert_eq!(merge_entry(&mut level, "b.txt", true, Some(9), "/d2", true), 1);
    assert_eq!(merge_entry(&mut level, "b.txt", true, Some(9), "/d2", true), 1);
    let names: Vec<&str> = level.iter().map(|n| n.name.as_str()).collect();
    assert_eq!(names, vec!["a", "b.txt"]);
    assert_eq!(level[1].size, Some(3));
    assert_eq!(level[1].branches, vec!["/d1".to_string(), "/d2".to_string()]);

    let mut quiet: Vec<TreeNode> = Vec::new();
    merge_entry(&mut quiet, "x", true, Some(1), "/d1", false);
    merge_entry(&mut quiet, "x", true, Some(1), "/d2", false);
    assert!(quiet[0].branches.is_empty());

    let root = tree_root(level, true);
    assert_eq!(root.name, ".");
    assert_eq!(root.branches, vec!["/d1".to_string(), "/d1".to_string(), "/d2".to_string()]);
    assert!(tree_root(quiet, false).branches.is_empty());
}

#[test]
fn tree_lines() {
    let file = TreeNode {
        name: "f.txt".to_string(),
        is_file: true,
        children: vec![],
        size: Some(2048),
        branches: vec!["/a".to_string(), "/b".to_string()],
    };
    assert_eq!(tree_line("", true, &file, false, false), "└── f.txt (2048 bytes)");
    assert_eq!(tree_line("│   ", false, &file, true, true), "│   ├── f.txt (2.0K) [2 branch(es)]");
    let dir = TreeNode { name: "d".to_string(), is_file: false, children: vec![], size: None, branches: vec![] };
    assert_eq!(tree_line("", false, &dir, false, true), "├── d/");
    assert_eq!(child_prefix("x", true), "x    ");
    assert_eq!(child_prefix("x", false), "x│   ");
    let base = TreeOptions {
        all_branches: false,
        max_depth: None,
        directories_only: false,
        files_only: false,
        human_size: false,
        verbose: false,
        json: false,
    };
    assert!(!entry_shown(".hidden", true, &base));
    assert!(entry_shown(".hidden", true, &TreeOptions { verbose: true, ..base }));
    assert!(!entry_shown("f", true, &TreeOptions { directories_only: true, ..base }));
    assert!(!entry_shown("d", false, &TreeOptions { files_only: true, ..base }));
    assert!(entry_shown("d", false, &TreeOptions { directories_only: true, ..base }));
    assert!(depth_allowed(&base, 100));
    assert!(depth_allowed(&TreeOptions { max_depth: Some(2), ..base }, 2));
    assert!(!depth_allowed(&TreeOptions { max_depth: Some(2), ..base }, 3));
}

#[test]
fn copies_group_by_name() {
    let found = vec![
        ("a.txt".to_string(), copy("/d1", "/d1/a.txt", 1, Some(5))),
        ("b.txt".to_string(), copy("/d1", "/d1/b.txt", 2, Some(5))),
        ("a.txt".to_string(), copy("/d2", "/d2/a.txt", 3, Some(9))),
    ];
    let groups = group_copies(found);
    assert_eq!(groups.len(), 2);
    assert_eq!(groups[0].0, "a.txt");
    assert_eq!(groups[0].1.len(), 2);
    assert_eq!(groups[0].1[1].path, "/d2/a.txt");
    assert_eq!(groups[1].1.len(), 1);
}

#[test]
fn conflicts_among_found_copies() {
    let found = vec![
        ("z.txt".to_string(), copy("/d1", "/d1/z.txt", 1, Some(1))),
        ("a.txt".to_string(), copy("/d1", "/d1/a.txt", 1, Some(1))),
        ("a.txt".to_string(), copy("/d2", "/d2/a.txt", 2, Some(7))),
        ("z.txt".to_string(), copy("/d2", "/d2/z.txt", 5, Some(2))),
        ("same.txt".to_string(), copy("/d1", "/d1/same.txt", 4, Some(1))),
        ("same.txt".to_string(), copy("/d2", "/d2/same.txt", 4, Some(2))),
    ];
    let conflicts = conflicts_among(found, false);
    assert_eq!(conflicts.len(), 2);
    assert_eq!(conflicts[0].name, "a.txt");
    assert_eq!(conflicts[0].branches[0].path, "/d2/a.txt");
    assert_eq!(conflicts[1].name, "z.txt");
}

#[test]
fn hashing_plans() {
    let small = HashConfig::conflict_detection();
    assert!(hash_plan(1_000_000, &small).is_none());
    assert_eq!(hash_plan(2_000_000, &small).unwrap(), vec![0, 1_000_000, 1_992_000]);
    let spread = HashConfig::copy_resolution();
    let offsets = hash_plan(1000 * 1024, &spread).unwrap();
    assert_eq!(offsets.len(), 10);
    assert_eq!(offsets[0], 0);
    assert_eq!(offsets[1], 102_400);
    assert_eq!(offsets[9], 921_600);
    let odd = HashConfig { small_file_threshold: 0, sample_chunk_size: 10, num_samples: 0 };
    assert_eq!(hash_plan(5, &odd).unwrap(), vec![0, 2, 0]);
    let huge = HashConfig { small_file_threshold: 0, sample_chunk_size: 1, num_samples: 3 };
    assert_eq!(hash_plan(u64::MAX, &huge).unwrap(), vec![0, u64::MAX / 3, u64::MAX / 3]);
}

#[test]
fn grep_selects_lines() {
    let lines: Vec<String> = vec!["an error here".into(), "all fine".into(), "ERROR again".into()];
    let p = LinePattern::new("err", false).unwrap();
    assert_eq!(selected_lines(&p, &lines, false), vec![0]);
    assert_eq!(selected_lines(&p, &lines, true), vec![1, 2]);
    let q = LinePattern::new("err", true).unwrap();
    assert_eq!(selected_lines(&q, &lines, false), vec![0, 2]);
    assert!(q.selects("Err", false));
    let r = LinePattern::new("^all", false).unwrap();
    assert_eq!(selected_lines(&r, &lines, false), vec![1]);
    let bad = LinePattern::new("(", false).err().unwrap();
    assert!(bad.to_string().starts_with("Command error: Invalid regex pattern: "));
}

#[test]
fn comparing_contents() {
    assert_eq!(compare_contents(b"", b""), CompareStep::Identical);
    assert_eq!(compare_contents(b"ab\ncd", b"ab\ncd"), CompareStep::Identical);
    assert_eq!(
        compare_contents(b"a\nb\nxz", b"a\nb\nyz"),
        CompareStep::Differ(ByteDifference { byte_offset: 4, line_number: 3, file1_byte: b'x', file2_byte: b'y' })
    );
    assert_eq!(
        compare_contents(b"abc", b"abcd"),
        CompareStep::Differ(ByteDifference { byte_offset: 3, line_number: 1, file1_byte: 0, file2_byte: b'd' })
    );
    assert_eq!(
        compare_contents(b"ab\nc", b"ab"),
        CompareStep::Differ(ByteDifference { byte_offset: 2, line_number: 1, file1_byte: b'\n', file2_byte: 0 })
    );
    assert_eq!(
        compare_contents(b"", b"z"),
        CompareStep::Differ(ByteDifference { byte_offset: 0, line_number: 1, file1_byte: 0, file2_byte: b'z' })
    );
}

#[test]
fn reports_of_conflicts_and_comparisons() {
    let conflicts = conflicts_among(
        vec![
            ("a.txt".to_string(), copy("/d1", "/d1/a.txt", 1, Some(1))),
            ("a.txt".to_string(), copy("/d2", "/d2/a.txt", 2, Some(7))),
        ],
        false,
    );
    let out = diff_output("docs", &conflicts);
    assert_eq!(out.path, "docs");
    assert_eq!(out.conflict_count, 1);
    assert_eq!(out.conflicts[0].name, "a.txt");
    assert_eq!(out.conflicts[0].branches[0].path, "/d2/a.txt");
    assert_eq!(out.conflicts[0].branches[0].size, 2);
    assert_eq!(out.conflicts[0].branches[0].mtime, Some(7));
    let single = diff_file_output("a.txt", &None);
    assert!(!single.has_conflict && single.conflict.is_none());
    let c = cmp_output("/x", "/y", CompareStep::Differ(ByteDifference { byte_offset: 3, line_number: 1, file1_byte: b'a', file2_byte: 0x01 }));
    assert_eq!(c.files, vec!["/x".to_string(), "/y".to_string()]);
    assert!(!c.identical);
    let d = c.difference.unwrap();
    assert_eq!((d.byte_offset, d.line_number, d.file1_value.as_str(), d.file2_value.as_str()), (3, 1, "a", "0x01"));
    assert!(cmp_output("/x", "/y", CompareStep::Identical).identical);
    let p = LinePattern::new("b", false).unwrap();
    let lines: Vec<String> = vec!["abc".into(), "xyz".into(), "b".into()];
    let m = line_matches(&p, "f.txt", "/d1", &lines, false);
    assert_eq!(m.len(), 2);
    assert_eq!((m[1].file.as_str(), m[1].branch.as_str(), m[1].line_number, m[1].line.as_str()), ("f.txt", "/d1", 3, "b"));
}

fn walked(path: &str, is_file: bool, size: u64, depth: usize) -> WalkEntry {
    WalkEntry { path: path.to_string(), is_file, is_dir: !is_file, size, depth }
}

#[test]
fn directory_usage_adds_up() {
    let entries = vec![
        walked("/b/d", false, 4096, 0),
        walked("/b/d/a.txt", true, 10, 1),
        walked("/b/d/sub", false, 4096, 1),
        walked("/b/d/sub/x", true, 5, 2),
        walked("/b/d/subway", false, 4096, 1),
        walked("/b/d/subway/y", true, 7, 2),
    ];
    let u = directory_usage(&entries, true);
    assert_eq!(u.total_size, 22);
    assert_eq!(u.subdirs, vec![("/b/d/sub".to_string(), 5), ("/b/d/subway".to_string(), 7)]);
    assert!(directory_usage(&entries, false).subdirs.is_empty());
    let huge = vec![walked("/x/a", true, u64::MAX, 1), walked("/x/b", true, 2, 1)];
    assert_eq!(directory_usage(&huge, false).total_size, u64::MAX);
}

fn met(relative: &str, name: Option<&str>, is_file: bool) -> FoundEntry {
    FoundEntry { relative: relative.to_string(), name: name.map(str::to_string), is_file, is_dir: !is_file, is_symlink: false }
}

#[test]
fn find_reports_each_match_once() {
    let entries = vec![
        met("", Some("disk1"), false),
        met("file2.log", Some("file2.log"), true),
        met("file1.txt", Some("file1.txt"), true),
        met("subdir", Some("subdir"), false),
        met("file2.log", Some("file2.log"), true),
        met("file5.log", Some("file5.log"), true),
    ];
    assert_eq!(find_matches(&entries, Some("*.log"), None), vec!["file2.log".to_string(), "file5.log".to_string()]);
    assert_eq!(find_matches(&entries, None, Some("d")), vec!["".to_string(), "subdir".to_string()]);
    assert_eq!(find_matches(&entries, None, Some("f")).len(), 3);
    assert_eq!(find_matches(&entries, None, Some("x")).len(), 5);
    assert!(find_matches(&entries, Some("["), None).is_empty());
    assert!(find_matches(&[met("..", None, false)], Some("*"), None).is_empty());
}
