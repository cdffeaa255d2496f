use nofs::commands::create::create_target;
use nofs::config::{
    default_action_policy, default_minfreespace, default_search_policy, Config, ShareConfig,
};
use nofs::pool::PoolManager;
use std::path::{Path, PathBuf};
use tempfile::TempDir;

fn create_branch(root: &Path, name: &str) -> PathBuf {
    tempfile::Builder::new().prefix(name).rand_bytes(0).tempdir_in(root).unwrap().keep()
}

/// The share `test` of the given read/write, read-only and no-create branches.
fn test_share(paths: &[&PathBuf], ro: &[&PathBuf], nc: &[&PathBuf], create_policy: &str) -> PoolManager {
    let s = |v: &[&PathBuf]| v.iter().map(|p| p.display().to_string()).collect::<Vec<_>>();
    let config = Config {
        share: vec![(
            "test".to_string(),
            ShareConfig {
                paths: s(paths),
                ro_paths: s(ro),
                nc_paths: s(nc),
                create_policy: create_policy.to_string(),
                search_policy: default_search_policy(),
                action_policy: default_action_policy(),
                minfreespace: default_minfreespace(),
            },
        )],
    };
    PoolManager::from_config(&config).unwrap()
}

fn create(m: &PoolManager, path: &str) -> String {
    let (pool, rel) = m.resolve_context_path(path).unwrap();
    create_target(pool, rel).unwrap().full_path
}

#[test]
fn pfrd_policy() {
    let root = TempDir::new().unwrap();
    let d1 = create_branch(root.path(), "disk1");
    let d2 = create_branch(root.path(), "disk2");
    let m = test_share(&[&d1, &d2], &[], &[], "pfrd");
    assert!(create(&m, "test:newfile.txt").contains("newfile.txt"));
}

#[test]
fn mfs_policy() {
    let root = TempDir::new().unwrap();
    let d1 = create_branch(root.path(), "disk1");
    let d2 = create_branch(root.path(), "disk2");
    let m = test_share(&[&d1, &d2], &[], &[], "mfs");
    assert!(create(&m, "test:newfile.txt").contains("newfile.txt"));
}

#[test]
fn rand_policy() {
    let root = TempDir::new().unwrap();
    let d1 = create_branch(root.path(), "disk1");
    let d2 = create_branch(root.path(), "disk2");
    let m = test_share(&[&d1, &d2], &[], &[], "rand");
    for _ in 0..5 {
        assert!(create(&m, "test:newfile.txt").contains("newfile.txt"));
    }
}

#[test]
fn ro_branch_excluded_from_create() {
    let root = TempDir::new().unwrap();
    let rw = create_branch(root.path(), "rw_disk");
    let ro = create_branch(root.path(), "ro_disk");
    let m = test_share(&[&rw], &[&ro], &[], "mfs");
    let out = create(&m, "test:newfile.txt");
    assert!(out.contains("rw_disk"));
    assert!(!out.contains("ro_disk"));
}

#[test]
fn nc_branch_excluded_from_create() {
    let root = TempDir::new().unwrap();
    let rw = create_branch(root.path(), "rw_disk");
    let nc = create_branch(root.path(), "nc_disk");
    let m = test_share(&[&rw], &[], &[&nc], "mfs");
    let out = create(&m, "test:newfile.txt");
    assert!(out.contains("rw_disk"));
    assert!(!out.contains("nc_disk"));
}

#[test]
fn directory_target_keeps_trailing_slash_flag() {
    let root = TempDir::new().unwrap();
    let d1 = create_branch(root.path(), "disk1");
    let m = test_share(&[&d1], &[], &[], "ff");
    let (pool, rel) = m.resolve_context_path("test:/photos/2024/").unwrap();
    let t = create_target(pool, rel).unwrap();
    assert!(t.is_directory);
    assert_eq!(t.full_path, format!("{}/photos/2024", d1.display()));
}
