use nofs::commands::create::create_target;
use nofs::commands::info::{info_all_text, info_text};
use nofs::config::{
    default_action_policy, default_create_policy, default_minfreespace, default_search_policy,
    Config, ShareConfig,
};
use nofs::pool::PoolManager;
use std::io::Write;
use std::path::{Path, PathBuf};
use tempfile::TempDir;

/// Creates the directories of `rel` (separated by `/`) under `root`, then the files
/// in the last one, each holding `content of NAME`.
fn create_branch(root: &Path, rel: &str, files: &[&str]) -> PathBuf {
    let mut dir = root.to_path_buf();
    for part in rel.split('/') {
        let next = dir.join(part);
        if !next.exists() {
            tempfile::Builder::new().prefix(part).rand_bytes(0).tempdir_in(&dir).unwrap().keep();
        }
        dir = next;
    }
    for file in files {
        let mut f = tempfile::Builder::new().prefix(*file).rand_bytes(0).tempfile_in(&dir).unwrap();
        f.write_all(format!("content of {file}").as_bytes()).unwrap();
        f.keep().unwrap();
    }
    dir
}

/// Reads a configuration as the command line tool does: each table under `share`
/// is a share; missing keys take their defaults.
fn config_from_toml(text: &str) -> Result<Config, String> {
    let table: toml::Table = toml::from_str(text).map_err(|e| e.to_string())?;
    let mut share = Vec::new();
    if let Some(v) = table.get("share") {
        let shares = v.as_table().ok_or("share is not a table")?;
        for (name, sv) in shares {
            let st = sv.as_table().ok_or("a share is not a table")?;
            let list = |key: &str| -> Result<Vec<String>, String> {
                match st.get(key) {
                    None => Ok(Vec::new()),
                    Some(a) => a
                        .as_array()
                        .ok_or(format!("{key} is not an array"))?
                        .iter()
                        .map(|x| x.as_str().map(str::to_string).ok_or(format!("{key} holds a non-string")))
                        .collect(),
                }
            };
            let text = |key: &str, default: String| -> Result<String, String> {
                match st.get(key) {
                    None => Ok(default),
                    Some(x) => x.as_str().map(str::to_string).ok_or(format!("{key} is not a string")),
                }
            };
            share.push((
                name.clone(),
                ShareConfig {
                    paths: list("paths")?,
                    ro_paths: list("ro_paths")?,
                    nc_paths: list("nc_paths")?,
                    create_policy: text("create_policy", default_create_policy())?,
                    search_policy: text("search_policy", default_search_policy())?,
                    action_policy: text("action_policy", default_action_policy())?,
                    minfreespace: text("minfreespace", default_minfreespace())?,
                },
            ));
        }
    }
    Ok(Config { share })
}

fn manager(config: &str) -> Result<PoolManager, String> {
    let c = config_from_toml(config)?;
    PoolManager::from_config(&c).map_err(|e| e.to_string())
}

fn info(config: &str, share: &str) -> Result<String, String> {
    let m = manager(config)?;
    let pool = m.get_pool(share).map_err(|e| e.to_string())?;
    Ok(info_text(pool))
}

fn create(config: &str, path: &str) -> Result<String, String> {
    let m = manager(config)?;
    let (pool, rel) = m.resolve_context_path(path).map_err(|e| e.to_string())?;
    create_target(pool, rel).map(|t| t.full_path).map_err(|e| e.to_string())
}

#[test]
fn basic_config_parsing() {
    let root = TempDir::new().unwrap();
    let _ = create_branch(root.path(), "disk1/media", &["file1.txt"]);
    let _ = create_branch(root.path(), "disk2/media", &["file2.txt"]);
    let config = format!(
        r#"
[share.media]
paths = ['{0}/disk1/media', '{0}/disk2/media']
create_policy = "pfrd"
search_policy = "ff"
"#,
        root.path().display()
    );
    let output = info(&config, "media").unwrap();
    assert!(output.contains("Share: media"));
    assert!(output.contains("Branches:     2"));
}

#[test]
fn ro_paths_config() {
    let root = TempDir::new().unwrap();
    let _ = create_branch(root.path(), "rw_branch", &["file1.txt"]);
    let _ = create_branch(root.path(), "ro_branch", &["file2.txt"]);
    let config = format!(
        r#"
[share.test]
paths = ['{0}/rw_branch']
ro_paths = ['{0}/ro_branch']
create_policy = "mfs"
"#,
        root.path().display()
    );
    let output = info(&config, "test").unwrap();
    assert!(output.contains("[RW]"));
    assert!(output.contains("[RO]"));
}

#[test]
fn nc_paths_config() {
    let root = TempDir::new().unwrap();
    let _ = create_branch(root.path(), "rw_branch", &["file1.txt"]);
    let _ = create_branch(root.path(), "nc_branch", &["file2.txt"]);
    let config = format!(
        r#"
[share.test]
paths = ['{0}/rw_branch']
nc_paths = ['{0}/nc_branch']
create_policy = "mfs"
"#,
        root.path().display()
    );
    let output = info(&config, "test").unwrap();
    assert!(output.contains("[RW]"));
    assert!(output.contains("[NC]"));
}

#[test]
fn multiple_shares() {
    let root = TempDir::new().unwrap();
    let _ = create_branch(root.path(), "media1", &["movie.mkv"]);
    let _ = create_branch(root.path(), "media2", &["show.mkv"]);
    let _ = create_branch(root.path(), "backup1", &["data.txt"]);
    let _ = create_branch(root.path(), "backup2", &["archive.txt"]);
    let config = format!(
        r#"
[share.media]
paths = ['{0}/media1', '{0}/media2']
create_policy = "pfrd"

[share.backup]
paths = ['{0}/backup1', '{0}/backup2']
create_policy = "mfs"
"#,
        root.path().display()
    );
    let output = info_all_text(&manager(&config).unwrap());
    assert!(output.contains("media:"));
    assert!(output.contains("backup:"));
}

#[test]
fn all_path_types_combined() {
    let root = TempDir::new().unwrap();
    for (name, file) in [("rw1", "file1.txt"), ("rw2", "file2.txt"), ("ro1", "file3.txt"), ("nc1", "file4.txt")] {
        let _ = create_branch(root.path(), name, &[file]);
    }
    let config = format!(
        r#"
[share.test]
paths = ['{0}/rw1', '{0}/rw2']
ro_paths = ['{0}/ro1']
nc_paths = ['{0}/nc1']
create_policy = "pfrd"
"#,
        root.path().display()
    );
    let output = info(&config, "test").unwrap();
    assert!(output.contains("Branches:     4"));
    assert!(output.contains("Writable:   2"));
}

#[test]
fn minfreespace_config() {
    let root = TempDir::new().unwrap();
    let _ = create_branch(root.path(), "disk1", &["file1.txt"]);
    let _ = create_branch(root.path(), "disk2", &["file2.txt"]);
    let config = format!(
        r#"
[share.test]
paths = ['{0}/disk1', '{0}/disk2']
minfreespace = "1G"
create_policy = "mfs"
"#,
        root.path().display()
    );
    let output = info(&config, "test").unwrap();
    assert!(output.contains("Min Free Space: 1000000000 bytes"));
}

#[test]
fn config_with_empty_paths() {
    let root = TempDir::new().unwrap();
    let _ = create_branch(root.path(), "disk1", &[]);
    let config = r#"
[share.test]
paths = []
"#;
    let output = info(config, "test");
    assert!(output.is_ok() || output.is_err());
    assert!(output.unwrap_err().contains("No branches defined in share 'test'"));
}

#[test]
fn config_with_nonexistent_path() {
    let config = r#"
[share.test]
paths = ['/nonexistent/path/that/does/not/exist']
"#;
    let output = info(config, "test");
    assert!(output.is_ok() || output.is_err());
    assert!(output.unwrap_err().contains("does not exist"));
}

#[test]
fn config_with_invalid_toml() {
    let config = r#"
[share.test
paths = ['/path']
"#;
    let output = info(config, "test");
    assert!(output.is_err());
}

#[test]
fn config_with_missing_share_section() {
    let config = r#"
[other]
key = "value"
"#;
    let output = manager(config);
    assert!(output.is_ok() || output.is_err());
    assert!(output.err().unwrap().contains("No shares defined in config"));
}

#[test]
fn config_with_invalid_policy() {
    let root = TempDir::new().unwrap();
    let _ = create_branch(root.path(), "disk1", &[]);
    let config = format!(
        r#"
[share.test]
paths = ['{0}/disk1']
create_policy = "invalid_policy"
"#,
        root.path().display()
    );
    let output = create(&config, "test:file.txt");
    assert!(output.is_err());
}

#[test]
fn config_with_duplicate_paths() {
    let root = TempDir::new().unwrap();
    let _ = create_branch(root.path(), "disk1", &[]);
    let config = format!(
        r"
[share.test]
paths = ['{0}/disk1', '{0}/disk1']
",
        root.path().display()
    );
    let output = manager(&config);
    assert!(output.is_ok() || output.is_err());
    assert!(output.err().unwrap().contains("Duplicate branch path detected"));
}

#[test]
fn config_with_many_branches() {
    let root = TempDir::new().unwrap();
    for i in 0..10 {
        let _ = create_branch(root.path(), &format!("disk{i}"), &[]);
    }
    let paths: Vec<String> = (0..10).map(|i| format!("{}/disk{}", root.path().display(), i)).collect();
    let config = format!(
        r"
[share.test]
paths = {}
",
        serde_json::to_string(&paths).unwrap()
    );
    let output = info(&config, "test").unwrap();
    assert!(output.contains("Branches:     10"));
}

#[test]
fn config_with_all_path_types_and_policies() {
    let root = TempDir::new().unwrap();
    for name in ["rw1", "rw2", "ro1", "nc1"] {
        let _ = create_branch(root.path(), name, &[]);
    }
    let config = format!(
        r#"
[share.test]
paths = ['{0}/rw1', '{0}/rw2']
ro_paths = ['{0}/ro1']
nc_paths = ['{0}/nc1']
create_policy = "rand"
search_policy = "all"
action_policy = "epall"
minfreespace = "100M"
"#,
        root.path().display()
    );
    let output = info(&config, "test").unwrap();
    assert!(output.contains("Branches:     4"));
}

#[test]
fn config_with_zero_minfreespace() {
    let root = TempDir::new().unwrap();
    let _ = create_branch(root.path(), "disk1", &[]);
    let config = format!(
        r#"
[share.test]
paths = ['{0}/disk1']
minfreespace = "0"
create_policy = "mfs"
"#,
        root.path().display()
    );
    let output = create(&config, "test:file.txt");
    assert!(output.is_ok(), "Command failed: {:?}", output);
}

#[test]
fn config_with_very_large_minfreespace() {
    let root = TempDir::new().unwrap();
    let _ = create_branch(root.path(), "disk1", &[]);
    let config = format!(
        r#"
[share.test]
paths = ['{0}/disk1']
minfreespace = "100PB"
create_policy = "mfs"
"#,
        root.path().display()
    );
    let output = create(&config, "test:file.txt");
    assert!(output.is_err());
}

#[test]
fn config_missing_required_fields() {
    let root = TempDir::new().unwrap();
    let _ = create_branch(root.path(), "disk1", &[]);
    let config = r#"
[share.test]
create_policy = "mfs"
"#;
    let output = info(config, "test");
    assert!(output.is_ok() || output.is_err());
}

#[test]
fn config_with_single_branch() {
    let root = TempDir::new().unwrap();
    let _ = create_branch(root.path(), "disk1", &[]);
    let config = format!(
        r"
[share.test]
paths = ['{0}/disk1']
",
        root.path().display()
    );
    let output = info(&config, "test").unwrap();
    assert!(output.contains("Branches:     1"));
}

#[test]
fn config_with_toml_comments() {
    let root = TempDir::new().unwrap();
    let _ = create_branch(root.path(), "disk1", &[]);
    let config = format!(
        r#"
# This is a comment
[share.test]
# Another comment
paths = ['{0}/disk1']  # inline comment
create_policy = "mfs"  # policy comment
"#,
        root.path().display()
    );
    let output = info(&config, "test");
    assert!(output.is_ok(), "Command failed: {:?}", output);
}

#[test]
fn config_with_whitespace_in_values() {
    let root = TempDir::new().unwrap();
    let branch_path = create_branch(root.path(), "disk with spaces", &[]);
    let config = format!(
        r"
[share.test]
paths = ['{0}']
",
        branch_path.display()
    );
    let m = manager(&config).unwrap();
    let pool = m.default_pool().unwrap();
    assert!(pool.total_space().is_ok());
}

#[test]
fn config_with_very_long_path() {
    let root = TempDir::new().unwrap();
    let deep_path = create_branch(root.path(), "a/b/c/d/e/f/g/h/i/j/k/l/m/n/o/p/q/r/s/t/u/v/w/x/y/z", &[]);
    let config = format!(
        r"
[share.test]
paths = ['{0}']
",
        deep_path.display()
    );
    let output = info(&config, "test");
    assert!(output.is_ok(), "Command failed: {:?}", output);
}

#[test]
fn test_config_with_unicode_paths() {
    let root = TempDir::new().unwrap();
    let branch_path = create_branch(root.path(), "branch_测试", &["file.txt"]);
    let config = format!(
        r#"
[share.test]
paths = ["{}"]
"#,
        branch_path.parent().unwrap().display()
    );
    let m = manager(&config).unwrap();
    let listed = m.resolve_context_path("test:/").map(|(pool, rel)| pool.find_all_branches(rel).len());
    assert!(listed.is_ok() || listed.is_err());
    assert_eq!(listed.unwrap(), 1);
}

#[test]
fn test_info_with_unicode_branches() {
    let root = TempDir::new().unwrap();
    let branch1_path = create_branch(root.path(), "disk1_测试", &[]);
    let branch2_path = create_branch(root.path(), "disk2_🎉", &[]);
    let config = format!(
        r#"
[share.test]
paths = ["{}", "{}"]
"#,
        branch1_path.display(),
        branch2_path.display()
    );
    let output = info(&config, "test");
    assert!(output.is_ok() || output.is_err());
    assert!(output.unwrap().contains("disk2_🎉 [RW]"));
}

#[test]
fn share_qualified_create_goes_into_that_share() {
    let root = TempDir::new().unwrap();
    let _ = create_branch(root.path(), "m1", &[]);
    let _ = create_branch(root.path(), "b1", &[]);
    let config = format!(
        r#"
[share.media]
paths = ['{0}/m1']
[share.backup]
paths = ['{0}/b1']
"#,
        root.path().display()
    );
    let path = create(&config, "backup:/dir/new.txt").unwrap();
    assert!(path.ends_with("b1/dir/new.txt"), "{path}");
    let err = create(&config, "nosuch:/x").unwrap_err();
    assert!(err.contains("Share 'nosuch' not found"));
}
