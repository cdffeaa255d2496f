use nofs::commands::create::create_target;
use nofs::commands::du::{directory_usage, normalize_pool_path, WalkEntry};
use nofs::commands::find::{find_matches, FoundEntry};
use nofs::commands::info::info_text;
use nofs::commands::ls::merge_entries;
use nofs::commands::transfer::{final_destination, resolve_dest_path, resolve_transfer_path};
use nofs::config::{
    default_action_policy, default_create_policy, default_minfreespace, default_search_policy,
    Config, ShareConfig,
};
use nofs::policy::Policy;
use nofs::pool::{Pool, PoolManager};
use std::io::Write;
use std::path::{Path, PathBuf};
use tempfile::TempDir;

/// Creates the directories of `rel` (separated by `/`) under `root`, then the files
/// in the last one, each holding `content of NAME`.
fn create_branch(root: &Path, rel: &str, files: &[&str]) -> PathBuf {
    let mut dir = root.to_path_buf();
    for part in rel.split('/') {
        let next = dir.join(part);
        if !next.exists() {
            tempfile::Builder::new().prefix(part).rand_bytes(0).tempdir_in(&dir).unwrap().keep();
        }
        dir = next;
    }
    for file in files {
        let mut f = tempfile::Builder::new().prefix(*file).rand_bytes(0).tempfile_in(&dir).unwrap();
        f.write_all(format!("content of {file}").as_bytes()).unwrap();
        f.keep().unwrap();
    }
    dir
}

/// One share over the given branch paths, the other keys at their defaults.
fn share(name: &str, paths: Vec<String>, create: &str, search: &str) -> PoolManager {
    let sc = ShareConfig {
        paths,
        ro_paths: vec![],
        nc_paths: vec![],
        create_policy: create.to_string(),
        search_policy: search.to_string(),
        action_policy: default_action_policy(),
        minfreespace: "0".to_string(),
    };
    PoolManager::from_config(&Config { share: vec![(name.to_string(), sc)] }).unwrap()
}

fn defaults(name: &str, paths: Vec<String>) -> PoolManager {
    let sc = ShareConfig {
        paths,
        ro_paths: vec![],
        nc_paths: vec![],
        create_policy: default_create_policy(),
        search_policy: default_search_policy(),
        action_policy: default_action_policy(),
        minfreespace: default_minfreespace(),
    };
    PoolManager::from_config(&Config { share: vec![(name.to_string(), sc)] }).unwrap()
}

/// The listing `ls` shows of a pool path: the entries of the folder on each branch
/// that has it, one per name, in name order (hidden ones only with `all`).
fn list(m: &PoolManager, input: &str, all: bool) -> Vec<String> {
    let (pool, rel) = m.resolve_context_path(input).unwrap();
    let mut entries = Vec::new();
    for branch in pool.find_all_branches(rel) {
        let dir = Path::new(&branch.path).join(rel);
        for e in walkdir::WalkDir::new(&dir).min_depth(1).max_depth(1) {
            let e = e.unwrap();
            let name = e.file_name().to_string_lossy().to_string();
            if name.starts_with('.') && !all {
                continue;
            }
            entries.push((e.path().display().to_string(), name));
        }
    }
    merge_entries(entries).into_iter().map(|(_, n)| n).collect()
}

fn path_of(root: &Path, rel: &str) -> String {
    root.join(rel).display().to_string()
}

#[test]
fn ls_command() {
    let root = TempDir::new().unwrap();
    create_branch(root.path(), "disk1/dir", &["file1.txt", "file2.txt"]);
    create_branch(root.path(), "disk2/dir", &["file3.txt", "file4.txt"]);
    let m = defaults("test", vec![path_of(root.path(), "disk1"), path_of(root.path(), "disk2")]);
    let out = list(&m, "test:dir", false);
    assert_eq!(out, vec!["file1.txt", "file2.txt", "file3.txt", "file4.txt"]);
}

#[test]
fn ls_hidden_files() {
    let root = TempDir::new().unwrap();
    create_branch(root.path(), "disk1/dir", &[".hidden", "visible.txt"]);
    let m = defaults("test", vec![path_of(root.path(), "disk1")]);
    assert_eq!(list(&m, "test:dir", false), vec!["visible.txt"]);
    assert_eq!(list(&m, "test:dir", true), vec![".hidden", "visible.txt"]);
}

#[test]
fn deduplication_across_branches() {
    let root = TempDir::new().unwrap();
    create_branch(root.path(), "disk1/dir", &["shared.txt"]);
    create_branch(root.path(), "disk2/dir", &["shared.txt"]);
    create_branch(root.path(), "disk3/dir", &["shared.txt"]);
    let m = defaults(
        "test",
        vec![path_of(root.path(), "disk1"), path_of(root.path(), "disk2"), path_of(root.path(), "disk3")],
    );
    let out = list(&m, "test:dir", false);
    assert_eq!(out.iter().filter(|n| n.as_str() == "shared.txt").count(), 1);
}

#[test]
fn adhoc_with_single_path() {
    let root = TempDir::new().unwrap();
    let branch = create_branch(root.path(), "disk1", &["file.txt"]);
    let m = PoolManager::from_paths(&branch.display().to_string(), "pfrd", "4G").unwrap();
    assert!(list(&m, "/", false).contains(&"file.txt".to_string()));
}

#[test]
fn adhoc_with_multiple_paths() {
    let root = TempDir::new().unwrap();
    let b1 = create_branch(root.path(), "disk1", &["file1.txt"]);
    let b2 = create_branch(root.path(), "disk2", &["file2.txt"]);
    let m = PoolManager::from_paths(&format!("{},{}", b1.display(), b2.display()), "pfrd", "4G")
        .unwrap();
    let out = list(&m, "/", false);
    assert!(out.contains(&"file1.txt".to_string()));
    assert!(out.contains(&"file2.txt".to_string()));
}

#[test]
fn adhoc_with_mixed_existing_nonexisting_paths() {
    let root = TempDir::new().unwrap();
    let branch = create_branch(root.path(), "disk1", &["file.txt"]);
    let m = PoolManager::from_paths(&branch.display().to_string(), "pfrd", "4G").unwrap();
    assert!(list(&m, "/", false).contains(&"file.txt".to_string()));
}

#[test]
fn adhoc_with_relative_path() {
    let root = TempDir::new().unwrap();
    let branch = create_branch(root.path(), "disk1/dir/subdir", &["file.txt"]);
    let top = branch.parent().unwrap().parent().unwrap().display().to_string();
    let m = PoolManager::from_paths(&top, "pfrd", "4G").unwrap();
    assert!(list(&m, "dir/subdir", false).contains(&"file.txt".to_string()));
}

#[test]
fn adhoc_with_trailing_slash() {
    let root = TempDir::new().unwrap();
    let branch = create_branch(root.path(), "disk1/dir", &["file.txt"]);
    let m = PoolManager::from_paths(&branch.parent().unwrap().display().to_string(), "pfrd", "4G")
        .unwrap();
    assert!(list(&m, "/dir/", false).contains(&"file.txt".to_string()));
}

#[test]
fn context_path_syntax() {
    let root = TempDir::new().unwrap();
    create_branch(root.path(), "disk1/media/movies", &["big_buck_bunny.mkv"]);
    create_branch(root.path(), "disk2/media/movies", &["sintel.mkv"]);
    let m = share(
        "media",
        vec![path_of(root.path(), "disk1/media"), path_of(root.path(), "disk2/media")],
        "pfrd",
        "ff",
    );
    let out = list(&m, "media:movies", false);
    assert!(out.contains(&"big_buck_bunny.mkv".to_string()));
    assert!(out.contains(&"sintel.mkv".to_string()));
}

#[test]
fn where_command() {
    let root = TempDir::new().unwrap();
    create_branch(root.path(), "disk1/dir", &["unique_file.txt"]);
    create_branch(root.path(), "disk2/dir", &["other.txt"]);
    let m = defaults("test", vec![path_of(root.path(), "disk1"), path_of(root.path(), "disk2")]);
    let (pool, rel) = m.resolve_context_path("test:dir/unique_file.txt").unwrap();
    let found = pool.resolve_path_first(rel).unwrap().unwrap();
    assert!(found.contains("disk1/dir/unique_file.txt"));
}

#[test]
fn where_all_flag() {
    let root = TempDir::new().unwrap();
    create_branch(root.path(), "disk1/dir", &["shared.txt"]);
    create_branch(root.path(), "disk2/dir", &["shared.txt"]);
    let m = defaults("test", vec![path_of(root.path(), "disk1"), path_of(root.path(), "disk2")]);
    let (pool, rel) = m.resolve_context_path("test:dir/shared.txt").unwrap();
    let found = pool.resolve_path(rel).unwrap().join("\n");
    assert!(found.contains("disk1"));
    assert!(found.contains("disk2"));
}

#[test]
fn ff_search_policy() {
    let root = TempDir::new().unwrap();
    create_branch(root.path(), "disk1/subdir", &["file1.txt"]);
    create_branch(root.path(), "disk2/subdir", &["file2.txt"]);
    let m = share(
        "test",
        vec![path_of(root.path(), "disk1"), path_of(root.path(), "disk2")],
        "pfrd",
        "ff",
    );
    let (pool, rel) = m.resolve_context_path("test:subdir/file1.txt").unwrap();
    assert_eq!(pool.search_policy, Policy::Ff);
    assert_eq!(pool.search_policy.to_string(), "ff");
    assert!(pool.resolve_path_first(rel).unwrap().unwrap().contains("disk1/subdir/file1.txt"));
}

#[test]
fn create_command() {
    let root = TempDir::new().unwrap();
    create_branch(root.path(), "disk1", &[]);
    create_branch(root.path(), "disk2", &[]);
    let m = share(
        "test",
        vec![path_of(root.path(), "disk1"), path_of(root.path(), "disk2")],
        "mfs",
        "ff",
    );
    let (pool, rel) = m.resolve_context_path("test:newfile.txt").unwrap();
    let out = create_target(pool, rel).unwrap().full_path;
    assert!(out.contains("newfile.txt"));
    assert!(out.contains("disk1") || out.contains("disk2"));
}

#[test]
fn exists_command() {
    let root = TempDir::new().unwrap();
    create_branch(root.path(), "disk1/dir", &["present.txt"]);
    let m = defaults("test", vec![path_of(root.path(), "disk1")]);
    let (pool, rel) = m.resolve_context_path("test:dir/present.txt").unwrap();
    assert!(pool.exists_in_pool(rel));
    assert!(pool.resolve_path_first(rel).unwrap().unwrap().contains("present.txt"));
    let (pool2, rel2) = m.resolve_context_path("test:dir/missing.txt").unwrap();
    assert!(!pool2.exists_in_pool(rel2));
}

#[test]
fn info_command() {
    let root = TempDir::new().unwrap();
    create_branch(root.path(), "disk1", &[]);
    create_branch(root.path(), "disk2", &[]);
    let m = share(
        "test",
        vec![path_of(root.path(), "disk1"), path_of(root.path(), "disk2")],
        "pfrd",
        "ff",
    );
    let out = info_text(m.get_pool("test").unwrap());
    assert!(out.contains("Share: test"));
    assert!(out.contains("Branches:     2"));
    assert!(out.contains("Create:     pfrd"));
}

/// Where a copy or move of `source` to `dest` (both in the share) lands.
fn landing(pool: &Pool, source: &str, dest: &str, dest_is_dir: bool) -> String {
    let src = resolve_transfer_path(source, Some(pool), false).unwrap();
    let base = resolve_dest_path(dest, Some(pool), src.branch_index).unwrap();
    final_destination(&base, &src.path, 1, dest_is_dir, dest_is_dir)
}

#[test]
fn cp_share_path_to_share_path() {
    let root = TempDir::new().unwrap();
    create_branch(root.path(), "disk1/source", &["file.txt"]);
    create_branch(root.path(), "disk1/dest", &[]);
    let m = defaults("test", vec![path_of(root.path(), "disk1")]);
    let pool = m.get_pool("test").unwrap();
    assert_eq!(landing(pool, "test:source/file.txt", "test:dest/", true), path_of(root.path(), "disk1/dest/file.txt"));
}

#[test]
fn mv_share_path_same_branch() {
    let root = TempDir::new().unwrap();
    create_branch(root.path(), "branch1", &["file.txt"]);
    create_branch(root.path(), "branch2", &[]);
    let m = defaults("mvtest", vec![path_of(root.path(), "branch1"), path_of(root.path(), "branch2")]);
    let pool = m.get_pool("mvtest").unwrap();
    let to = landing(pool, "mvtest:file.txt", "mvtest:renamed.txt", false);
    assert_eq!(to, path_of(root.path(), "branch1/renamed.txt"));
}

#[test]
fn mv_share_path_same_branch_to_dir() {
    let root = TempDir::new().unwrap();
    create_branch(root.path(), "disk1/source", &["file.txt"]);
    create_branch(root.path(), "disk1/dest", &[]);
    create_branch(root.path(), "disk2/other", &[]);
    let m = defaults("mvtest2", vec![path_of(root.path(), "disk1"), path_of(root.path(), "disk2")]);
    let pool = m.get_pool("mvtest2").unwrap();
    let to = landing(pool, "mvtest2:source/file.txt", "mvtest2:dest/", true);
    assert_eq!(to, path_of(root.path(), "disk1/dest/file.txt"));
}

#[test]
fn cp_share_path_same_branch() {
    let root = TempDir::new().unwrap();
    create_branch(root.path(), "branch1", &["file.txt"]);
    create_branch(root.path(), "branch2", &[]);
    let m = defaults("cptest", vec![path_of(root.path(), "branch1"), path_of(root.path(), "branch2")]);
    let pool = m.get_pool("cptest").unwrap();
    let to = landing(pool, "cptest:file.txt", "cptest:copied.txt", false);
    assert_eq!(to, path_of(root.path(), "branch1/copied.txt"));
}

#[test]
fn cp_share_path_same_branch_to_dir() {
    let root = TempDir::new().unwrap();
    create_branch(root.path(), "disk1/source", &["file.txt"]);
    create_branch(root.path(), "disk1/dest", &[]);
    create_branch(root.path(), "disk2/other", &[]);
    let m = defaults("cptest2", vec![path_of(root.path(), "disk1"), path_of(root.path(), "disk2")]);
    let pool = m.get_pool("cptest2").unwrap();
    let to = landing(pool, "cptest2:source/file.txt", "cptest2:dest/", true);
    assert_eq!(to, path_of(root.path(), "disk1/dest/file.txt"));
}

/// What `find` reports under a pool path: the entries met walking each branch that
/// has it, filtered and each relative path once.
fn find(m: &PoolManager, input: &str, name: Option<&str>, kind: Option<&str>) -> Vec<String> {
    let (pool, rel) = m.resolve_context_path(input).unwrap();
    let mut met = Vec::new();
    for branch in pool.find_all_branches(rel) {
        let base = Path::new(&branch.path).join(rel);
        for e in walkdir::WalkDir::new(&base).follow_links(true) {
            let e = e.unwrap();
            let meta = e.metadata().unwrap();
            met.push(FoundEntry {
                relative: e.path().strip_prefix(&base).unwrap().display().to_string(),
                name: e.path().file_name().map(|n| n.to_string_lossy().to_string()),
                is_file: meta.is_file(),
                is_dir: meta.is_dir(),
                is_symlink: meta.is_symlink(),
            });
        }
    }
    find_matches(&met, name, kind)
}

#[test]
fn find_command() {
    let root = TempDir::new().unwrap();
    create_branch(root.path(), "disk1", &["file1.txt", "file2.log"]);
    create_branch(root.path(), "disk1/subdir", &["file3.txt"]);
    create_branch(root.path(), "disk2", &["file4.txt", "file5.log"]);
    let m = defaults("test", vec![path_of(root.path(), "disk1"), path_of(root.path(), "disk2")]);
    let out = find(&m, "test:.", Some("*.log"), None).join("\n");
    assert!(out.contains("file2.log"));
    assert!(out.contains("file5.log"));
    assert!(!out.contains("file1.txt"));
}

#[test]
fn find_type_filter() {
    let root = TempDir::new().unwrap();
    create_branch(root.path(), "disk1", &["file.txt"]);
    create_branch(root.path(), "disk1/subdir", &["nested.txt"]);
    let m = defaults("test", vec![path_of(root.path(), "disk1")]);
    let dirs = find(&m, "test:.", None, Some("d")).join("\n");
    assert!(dirs.contains("subdir"));
    let files = find(&m, "test:.", None, Some("f")).join("\n");
    assert!(files.contains("file.txt"));
}

#[test]
fn adhoc_find_command() {
    let root = TempDir::new().unwrap();
    let branch = create_branch(root.path(), "disk1", &["file1.txt", "file2.log"]);
    create_branch(root.path(), "disk1/subdir", &["file3.log"]);
    let m = PoolManager::from_paths(&branch.display().to_string(), "pfrd", "4G").unwrap();
    let out = find(&m, "/", Some("*.log"), None).join("\n");
    assert!(out.contains("file2.log"));
    assert!(out.contains("file3.log"));
}

#[test]
fn adhoc_du_command() {
    let root = TempDir::new().unwrap();
    let branch = create_branch(root.path(), "disk1/dir", &["file1.txt", "file2.txt"]);
    let m = PoolManager::from_paths(&branch.parent().unwrap().display().to_string(), "pfrd", "4G")
        .unwrap();
    let (pool, rel) = m.resolve_context_path("/dir").unwrap();
    let resolved = pool.resolve_path(&normalize_pool_path(rel)).unwrap();
    let branch_path = branch.display().to_string();
    assert!(resolved.contains(&branch_path), "{resolved:?}");
    let entries: Vec<WalkEntry> = walkdir::WalkDir::new(&branch_path)
        .into_iter()
        .map(|e| {
            let e = e.unwrap();
            let meta = e.metadata().unwrap();
            WalkEntry {
                path: e.path().display().to_string(),
                is_file: meta.is_file(),
                is_dir: meta.is_dir(),
                size: meta.len(),
                depth: e.depth(),
            }
        })
        .collect();
    let usage = directory_usage(&entries, true);
    assert_eq!(usage.total_size, 2 * "content of file1.txt".len() as u64);
    assert!(usage.subdirs.is_empty());
}
