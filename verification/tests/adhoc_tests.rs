use nofs::commands::create::create_target;
use nofs::commands::info::info_all_text;
use nofs::config::find_default_config;
use nofs::pool::PoolManager;
use std::io::Write;
use std::path::{Path, PathBuf};
use tempfile::TempDir;

fn create_branch(root: &Path, rel: &str, files: &[&str]) -> PathBuf {
    let mut dir = root.to_path_buf();
    for part in rel.split('/') {
        let next = dir.join(part);
        if !next.exists() {
            tempfile::Builder::new().prefix(part).rand_bytes(0).tempdir_in(&dir).unwrap().keep();
        }
        dir = next;
    }
    for file in files {
        let mut f = tempfile::Builder::new().prefix(*file).rand_bytes(0).tempfile_in(&dir).unwrap();
        f.write_all(format!("content of {file}").as_bytes()).unwrap();
        f.keep().unwrap();
    }
    dir
}

fn adhoc(paths: &str, policy: &str) -> Result<PoolManager, String> {
    PoolManager::from_paths(paths, policy, "4G").map_err(|e| e.to_string())
}

fn create(m: &PoolManager, path: &str) -> Result<String, String> {
    let (pool, rel) = m.resolve_context_path(path).map_err(|e| e.to_string())?;
    create_target(pool, rel).map(|t| t.full_path).map_err(|e| e.to_string())
}

#[test]
fn adhoc_with_branch_modes() {
    let root = TempDir::new().unwrap();
    let branch1 = create_branch(root.path(), "rw", &["file1.txt"]);
    let branch2 = create_branch(root.path(), "ro", &["file2.txt"]);
    let m = adhoc(&format!("{}=RW,{}=RO", branch1.display(), branch2.display()), "pfrd").unwrap();
    let output = info_all_text(&m);
    assert!(output.contains("Branches:"));
}

#[test]
fn adhoc_with_policy() {
    let root = TempDir::new().unwrap();
    let branch1 = create_branch(root.path(), "disk1", &[]);
    let branch2 = create_branch(root.path(), "disk2", &[]);
    let m = adhoc(&format!("{},{}", branch1.display(), branch2.display()), "mfs").unwrap();
    let output = create(&m, "/newfile.txt").unwrap();
    assert!(output.contains("newfile.txt"));
}

#[test]
fn adhoc_with_nonexistent_path() {
    let output = adhoc("/nonexistent/path", "pfrd");
    assert!(output.is_err() || output.is_ok());
    assert!(output.err().unwrap().contains("does not exist"));
}

#[test]
fn adhoc_create_with_policy() {
    let root = TempDir::new().unwrap();
    let branch1 = create_branch(root.path(), "disk1", &[]);
    let branch2 = create_branch(root.path(), "disk2", &[]);
    let m = adhoc(&format!("{},{}", branch1.display(), branch2.display()), "rand").unwrap();
    let output = create(&m, "/test.txt").unwrap();
    let b1 = branch1.display().to_string();
    let b2 = branch2.display().to_string();
    assert!(output.contains(&b1) || output.contains(&b2));
}

#[test]
fn adhoc_with_invalid_policy() {
    let root = TempDir::new().unwrap();
    let branch = create_branch(root.path(), "disk1", &[]);
    let output = adhoc(&branch.display().to_string(), "invalid_policy");
    assert!(output.is_err());
}

#[test]
fn adhoc_with_branch_minfreespace() {
    let root = TempDir::new().unwrap();
    let branch1 = create_branch(root.path(), "disk1", &[]);
    let branch2 = create_branch(root.path(), "disk2", &[]);
    let m = adhoc(&format!("{},{}", branch1.display(), branch2.display()), "pfrd");
    assert!(m.is_ok());
    let _ = info_all_text(&m.unwrap());
}

#[test]
fn adhoc_with_comma_separated_paths() {
    let root = TempDir::new().unwrap();
    let branch1 = create_branch(root.path(), "disk1", &["file1.txt"]);
    let branch2 = create_branch(root.path(), "disk2", &["file2.txt"]);
    let m = adhoc(&format!("{},{}", branch1.display(), branch2.display()), "pfrd");
    assert!(m.is_ok() || m.is_err());
    assert_eq!(m.unwrap().default_pool().unwrap().branch_count(), 2);
}

#[test]
fn adhoc_exists_command() {
    let root = TempDir::new().unwrap();
    let branch = create_branch(root.path(), "disk1", &["file.txt"]);
    let m = adhoc(&branch.display().to_string(), "pfrd").unwrap();
    let (pool, rel) = m.resolve_context_path("/file.txt").unwrap();
    assert!(pool.exists_in_pool(rel), "Should exist");
    let (pool2, rel2) = m.resolve_context_path("/nonexistent.txt").unwrap();
    assert!(!pool2.exists_in_pool(rel2), "Should not exist");
}

#[test]
fn adhoc_which_command() {
    let root = TempDir::new().unwrap();
    let branch = create_branch(root.path(), "disk1/dir", &["file.txt"]);
    let m = adhoc(&branch.parent().unwrap().display().to_string(), "pfrd").unwrap();
    let (pool, rel) = m.resolve_context_path("/dir/file.txt").unwrap();
    let found = pool.resolve_path(rel).unwrap();
    assert_eq!(found.len(), 1);
    assert!(found[0].contains("file.txt"));
}

#[test]
fn adhoc_with_nc_branch() {
    let root = TempDir::new().unwrap();
    let branch1 = create_branch(root.path(), "rw", &[]);
    let branch2 = create_branch(root.path(), "nc", &[]);
    let m = adhoc(&format!("{}=RW,{}=NC", branch1.display(), branch2.display()), "pfrd").unwrap();
    let output = create(&m, "/file.txt").unwrap();
    let b1 = branch1.display().to_string();
    let b2 = branch2.display().to_string();
    assert!(output.contains(&b1));
    assert!(!output.contains(&format!("{b2}/")));
}

#[test]
fn adhoc_empty_paths_list() {
    let found = find_default_config();
    assert!(found.is_none() || found.is_some());
}

#[test]
fn adhoc_info_command() {
    let root = TempDir::new().unwrap();
    let branch1 = create_branch(root.path(), "disk1", &[]);
    let branch2 = create_branch(root.path(), "disk2", &[]);
    let m = adhoc(&format!("{},{}", branch1.display(), branch2.display()), "pfrd").unwrap();
    let output = info_all_text(&m);
    assert!(output.contains("Branches:"));
    assert!(output.contains("default:"));
    assert!(output.contains("  Branches: 2 (2 writable)"));
}

#[test]
fn test_unicode_branch_names() {
    let root = TempDir::new().unwrap();
    let branch_path = create_branch(root.path(), "branch_🎉_测试", &["file.txt"]);
    let m = adhoc(&branch_path.display().to_string(), "pfrd").unwrap();
    let (pool, rel) = m.resolve_context_path("/").unwrap();
    assert!(!pool.find_all_branches(rel).is_empty());
    assert!(branch_path.exists());
}

#[test]
fn test_adhoc_with_unicode_branch_display() {
    let root = TempDir::new().unwrap();
    let branch_path = create_branch(root.path(), "disk_🎉", &["file.txt"]);
    let m = adhoc(&branch_path.display().to_string(), "pfrd");
    assert!(m.is_ok() || m.is_err());
    assert_eq!(m.unwrap().default_pool().unwrap().branches[0].path, branch_path.display().to_string());
}

#[test]
fn test_branch_with_special_unicode_chars() {
    let root = TempDir::new().unwrap();
    let branch_path = create_branch(root.path(), "branch_🎉_测试_файл", &["file.txt"]);
    let m = adhoc(&branch_path.display().to_string(), "pfrd");
    assert!(m.is_ok() || m.is_err());
    assert!(m.is_ok());
}

#[test]
fn test_empty_non_utf8_component() {
    let root = TempDir::new().unwrap();
    let branch_path = create_branch(root.path(), "disk1", &["file.txt"]);
    let m = adhoc(&branch_path.display().to_string(), "pfrd").unwrap();
    let r = m.resolve_context_path("//");
    assert!(r.is_ok() || r.is_err());
    assert_eq!(r.unwrap().1, "");
}

#[test]
fn duplicate_adhoc_paths_are_refused() {
    let root = TempDir::new().unwrap();
    let branch = create_branch(root.path(), "disk1", &[]);
    let p = branch.display().to_string();
    let err = adhoc(&format!("{p}, {p}"), "pfrd").unwrap_err();
    assert!(err.contains("appears at both index 0 and 1"), "{err}");
    let err2 = PoolManager::from_paths(&p, "ff", "lots").err().unwrap();
    assert!(err2.to_string().starts_with("Parse error"));
}

#[test]
fn pool_lookups() {
    let root = TempDir::new().unwrap();
    let b1 = create_branch(root.path(), "d1", &["a.txt"]);
    let b2 = create_branch(root.path(), "d2", &["a.txt"]);
    let m = adhoc(&format!("{}=RO,{}", b1.display(), b2.display()), "ff").unwrap();
    assert_eq!(m.pool_names(), vec!["default"]);
    let pool = m.get_pool("default").unwrap();
    assert!(m.get_pool("other").is_err());
    assert_eq!(pool.branch_count(), 2);
    assert_eq!(pool.writable_branch_count(), 1);
    assert_eq!(pool.get_branch_index(&b2.display().to_string()).unwrap(), 1);
    assert!(pool.get_branch_index("/nowhere").is_err());
    assert!(pool.find_branch(&format!("{}/", b1.display())).is_some());
    assert!(pool.find_branch("/nowhere").is_none());
    assert_eq!(pool.find_all_branches("a.txt").len(), 2);
    assert_eq!(pool.resolve_path_first("a.txt").unwrap(), Some(format!("{}/a.txt", b1.display())));
    assert_eq!(pool.resolve_path_first("b.txt").unwrap(), None);
    let chosen = pool.select_create_branch("new.txt").unwrap();
    assert_eq!(chosen.path, b2.display().to_string());
    let (p, rest) = m.resolve_context_path("default:///x/y").unwrap();
    assert_eq!(p.name, "default");
    assert_eq!(rest, "x/y");
    assert_eq!(m.resolve_context_path("C:\\dir").unwrap().1, "C:\\dir");
    assert!(m.resolve_context_path("zzz:/x").is_err());
    let srcs = vec!["/plain".to_string(), "default:/a".to_string()];
    assert_eq!(m.extract_share_from_paths(&srcs, "x").unwrap().name, "default");
    assert!(m.extract_share_from_paths(&["/a".to_string()], "/b").is_none());
}
