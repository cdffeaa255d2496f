use nofs::branch::{Branch, BranchMode};
use tempfile::TempDir;

fn create_temp_branch() -> (TempDir, Branch) {
    let temp_dir = TempDir::new().expect("Failed to create temp dir");
    let branch = Branch {
        path: temp_dir.path().to_str().unwrap().to_string(),
        mode: BranchMode::RW,
        minfreespace: None,
    };
    (temp_dir, branch)
}

#[test]
fn test_branch_mode_from_str() {
    assert_eq!(BranchMode::from_str("RW").unwrap(), BranchMode::RW);
    assert_eq!(BranchMode::from_str("rw").unwrap(), BranchMode::RW);
    assert_eq!(BranchMode::from_str("RO").unwrap(), BranchMode::RO);
    assert_eq!(BranchMode::from_str("ro").unwrap(), BranchMode::RO);
    assert_eq!(BranchMode::from_str("NC").unwrap(), BranchMode::NC);
    assert_eq!(BranchMode::from_str("nc").unwrap(), BranchMode::NC);
    assert!(BranchMode::from_str("INVALID").is_err());
}

#[test]
fn test_branch_mode_display() {
    assert_eq!(BranchMode::RW.to_string(), "RW");
    assert_eq!(BranchMode::RO.to_string(), "RO");
    assert_eq!(BranchMode::NC.to_string(), "NC");
}

#[test]
fn test_branch_parse_simple_path() {
    let (temp_dir, branch) = create_temp_branch();
    let path_str = branch.path.as_str();
    let parsed = Branch::parse(path_str).unwrap();
    assert_eq!(parsed.path, branch.path);
    assert_eq!(parsed.mode, BranchMode::RW);
    assert!(parsed.minfreespace.is_none());
    drop(temp_dir);
}

#[test]
fn test_branch_parse_with_mode() {
    let (temp_dir, _) = create_temp_branch();
    let path_str = format!("{}=RO", temp_dir.path().display());
    let parsed = Branch::parse(&path_str).unwrap();
    assert_eq!(parsed.mode, BranchMode::RO);
}

#[test]
fn test_branch_parse_with_mode_and_minfreespace() {
    let (temp_dir, _) = create_temp_branch();
    let path_str = format!("{}=RW,1G", temp_dir.path().display());
    let parsed = Branch::parse(&path_str).unwrap();
    assert_eq!(parsed.mode, BranchMode::RW);
    assert_eq!(parsed.minfreespace, Some("1G".to_string()));
}

#[test]
fn test_branch_parse_with_minfreespace_only() {
    let (temp_dir, _) = create_temp_branch();
    let path_str = format!("{}=512M", temp_dir.path().display());
    let parsed = Branch::parse(&path_str).unwrap();
    assert_eq!(parsed.mode, BranchMode::RW);
    assert_eq!(parsed.minfreespace, Some("512M".to_string()));
}

#[test]
fn test_branch_parse_invalid_option() {
    let (temp_dir, _) = create_temp_branch();
    let path_str = format!("{}=INVALID", temp_dir.path().display());
    let result = Branch::parse(&path_str);
    assert!(result.is_err());
    assert!(result.unwrap_err().to_string().contains("Invalid branch option"));
}

#[test]
fn test_branch_parse_nonexistent_path() {
    let result = Branch::parse("/nonexistent/path/that/does/not/exist");
    assert!(result.is_err());
    assert!(result.unwrap_err().to_string().contains("does not exist"));
}

#[test]
fn test_branch_can_create() {
    let (temp_dir, _) = create_temp_branch();
    let p = temp_dir.path().to_str().unwrap().to_string();
    let branch_rw = Branch { path: p.clone(), mode: BranchMode::RW, minfreespace: None };
    let branch_read_only = Branch { path: p.clone(), mode: BranchMode::RO, minfreespace: None };
    let branch_no_create = Branch { path: p, mode: BranchMode::NC, minfreespace: None };

    assert!(branch_rw.can_create());
    assert!(!branch_read_only.can_create());
    assert!(!branch_no_create.can_create());
}

#[test]
fn test_branch_can_action() {
    let (temp_dir, _) = create_temp_branch();
    let p = temp_dir.path().to_str().unwrap().to_string();
    let branch_rw = Branch { path: p.clone(), mode: BranchMode::RW, minfreespace: None };
    let branch_read_only = Branch { path: p.clone(), mode: BranchMode::RO, minfreespace: None };
    let branch_no_create = Branch { path: p, mode: BranchMode::NC, minfreespace: None };

    assert!(branch_rw.can_action());
    assert!(!branch_read_only.can_action());
    assert!(!branch_no_create.can_action());
}

#[test]
fn test_branch_parse_with_multiple_options() {
    let (temp_dir, _) = create_temp_branch();
    let path_str = format!("{}=NC,2G", temp_dir.path().display());
    let parsed = Branch::parse(&path_str).unwrap();
    assert_eq!(parsed.mode, BranchMode::NC);
    assert_eq!(parsed.minfreespace, Some("2G".to_string()));
}

#[test]
fn test_branch_parse_with_whitespace() {
    let (temp_dir, _) = create_temp_branch();
    let path_str = format!("{}=RO,1G", temp_dir.path().display());
    let parsed = Branch::parse(&path_str).unwrap();
    assert_eq!(parsed.mode, BranchMode::RO);
    assert_eq!(parsed.minfreespace, Some("1G".to_string()));
}

#[test]
fn test_branch_parse_nc_mode() {
    let (temp_dir, _) = create_temp_branch();
    let path_str = format!("{}=NC", temp_dir.path().display());
    let parsed = Branch::parse(&path_str).unwrap();
    assert_eq!(parsed.mode, BranchMode::NC);
    assert!(!parsed.can_create());
    assert!(!parsed.can_action());
}

#[test]
fn test_branch_minfreespace_parsing_variations() {
    let (temp_dir, _) = create_temp_branch();

    let path_str_100m = format!("{}=100M", temp_dir.path().display());
    let parsed_100m = Branch::parse(&path_str_100m).unwrap();
    assert_eq!(parsed_100m.minfreespace, Some("100M".to_string()));

    let path_str_500k = format!("{}=500K", temp_dir.path().display());
    let parsed_500k = Branch::parse(&path_str_500k).unwrap();
    assert_eq!(parsed_500k.minfreespace, Some("500K".to_string()));

    let path_str_10t = format!("{}=10T", temp_dir.path().display());
    let parsed_10t = Branch::parse(&path_str_10t).unwrap();
    assert_eq!(parsed_10t.minfreespace, Some("10T".to_string()));

    let path_str_bytes = format!("{}=1000000", temp_dir.path().display());
    let parsed_bytes = Branch::parse(&path_str_bytes).unwrap();
    assert_eq!(parsed_bytes.minfreespace, Some("1000000".to_string()));
}

#[test]
fn test_branch_parse_invalid_minfreespace_format() {
    let (temp_dir, _) = create_temp_branch();
    let path_str = format!("{}=INVALID", temp_dir.path().display());
    let result = Branch::parse(&path_str);
    assert!(result.is_err());
    assert!(result.unwrap_err().to_string().contains("Invalid branch option"));
}

#[test]
fn test_branch_clone_and_debug() {
    let (_temp_dir, branch) = create_temp_branch();

    let branch_clone = branch.clone();
    assert_eq!(branch.path, branch_clone.path);
    assert_eq!(branch.mode, branch_clone.mode);
    assert_eq!(branch.minfreespace, branch_clone.minfreespace);

    let debug_str = format!("{branch:?}");
    assert!(debug_str.contains("Branch"));
}

#[test]
fn branch_space_is_read_from_disk() {
    let (_temp_dir, branch) = create_temp_branch();
    let available = branch.available_space().unwrap();
    let total = branch.total_space().unwrap();
    let used = branch.used_space().unwrap();
    assert!(total > 0);
    assert!(available <= total);
    assert!(used <= total);
}

#[test]
fn parse_with_existence_decides_on_given_answer() {
    let ok = Branch::parse_with_existence("/some/where=ro,3G", true).unwrap();
    assert_eq!(ok.path, "/some/where");
    assert_eq!(ok.mode, BranchMode::RO);
    assert_eq!(ok.minfreespace, Some("3G".to_string()));
    let missing = Branch::parse_with_existence("/some/where=ro", false);
    assert!(missing.unwrap_err().to_string().contains("does not exist"));
    let bad = Branch::parse_with_existence("/x=RO,fast", true);
    assert!(bad.unwrap_err().to_string().contains("Invalid branch option: 'fast'"));
    let later_mode_wins = Branch::parse_with_existence("/x= ro , nc ", true).unwrap();
    assert_eq!(later_mode_wins.mode, BranchMode::NC);
    assert_eq!(Branch::path_of_spec("/a=b=c"), "/a");
}

#[test]
fn branch_space_of_missing_path_names_the_failed_read() {
    let branch = Branch {
        path: "/nonexistent/nofs/branch/path".to_string(),
        mode: BranchMode::RW,
        minfreespace: None,
    };
    let available = branch.available_space().unwrap_err().to_string();
    assert!(available.contains("Failed to get available space: "));
    let total = branch.total_space().unwrap_err().to_string();
    assert!(total.contains("Failed to get total space: "));
    let used = branch.used_space().unwrap_err().to_string();
    assert!(used.contains("Failed to get total space: "));
}
