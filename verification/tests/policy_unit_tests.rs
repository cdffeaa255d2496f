use nofs::branch::{Branch, BranchMode};
use nofs::policy::{parse_size, CreatePolicy, Policy, SearchPolicy};
use std::io::Write;
use std::path::Path;
use tempfile::TempDir;

fn make_dir(parent: &Path, name: &str) -> String {
    let dir = tempfile::Builder::new().prefix(name).rand_bytes(0).tempdir_in(parent).unwrap();
    dir.keep().to_str().unwrap().to_string()
}

fn make_file(dir: &str, name: &str, content: &str) {
    let mut f = tempfile::Builder::new().prefix(name).rand_bytes(0).tempfile_in(dir).unwrap();
    f.write_all(content.as_bytes()).unwrap();
    f.keep().unwrap();
}

fn create_test_branch(name: &str) -> (TempDir, Branch) {
    let temp_dir = TempDir::new().expect("Failed to create temp dir");
    let branch_path = make_dir(temp_dir.path(), name);
    let branch = Branch { path: branch_path, mode: BranchMode::RW, minfreespace: None };
    (temp_dir, branch)
}

#[test]
fn test_policy_from_str() {
    assert_eq!(Policy::from_str("pfrd").unwrap(), Policy::Pfrd);
    assert_eq!(Policy::from_str("PFRD").unwrap(), Policy::Pfrd);
    assert_eq!(Policy::from_str("mfs").unwrap(), Policy::Mfs);
    assert_eq!(Policy::from_str("ff").unwrap(), Policy::Ff);
    assert_eq!(Policy::from_str("rand").unwrap(), Policy::Rand);
    assert_eq!(Policy::from_str("lfs").unwrap(), Policy::Lfs);
    assert_eq!(Policy::from_str("lus").unwrap(), Policy::Lus);
    assert_eq!(Policy::from_str("lup").unwrap(), Policy::Lup);
    assert_eq!(Policy::from_str("epmfs").unwrap(), Policy::EpMfs);
    assert_eq!(Policy::from_str("epff").unwrap(), Policy::EpFf);
    assert_eq!(Policy::from_str("eprand").unwrap(), Policy::EpRand);
    assert_eq!(Policy::from_str("epall").unwrap(), Policy::EpAll);
    assert_eq!(Policy::from_str("all").unwrap(), Policy::All);
    assert!(Policy::from_str("invalid").is_err());
}

#[test]
fn test_policy_display() {
    assert_eq!(Policy::Pfrd.to_string(), "pfrd");
    assert_eq!(Policy::Mfs.to_string(), "mfs");
    assert_eq!(Policy::Ff.to_string(), "ff");
    assert_eq!(Policy::Rand.to_string(), "rand");
    assert_eq!(Policy::Lfs.to_string(), "lfs");
    assert_eq!(Policy::Lus.to_string(), "lus");
    assert_eq!(Policy::Lup.to_string(), "lup");
    assert_eq!(Policy::EpMfs.to_string(), "epmfs");
    assert_eq!(Policy::EpFf.to_string(), "epff");
    assert_eq!(Policy::EpRand.to_string(), "eprand");
    assert_eq!(Policy::EpAll.to_string(), "epall");
    assert_eq!(Policy::All.to_string(), "all");
}

#[test]
fn test_policy_parse() {
    assert_eq!(Policy::parse("mfs").unwrap(), Policy::Mfs);
    assert!(Policy::parse("invalid").is_err());
}

#[test]
fn test_create_policy_select_ff() {
    let (_temp1, branch1) = create_test_branch("disk1");
    let (_temp2, branch2) = create_test_branch("disk2");

    let branches = vec![branch1, branch2];
    let policy = CreatePolicy::new(&branches, 0);

    let selected = policy.select(Policy::Ff, None).unwrap();
    assert_eq!(selected.path, branches.first().unwrap().path);
}

#[test]
fn test_create_policy_select_lfs() {
    let (_temp1, branch1) = create_test_branch("disk1");
    let (_temp2, branch2) = create_test_branch("disk2");

    let branches = vec![branch1, branch2];
    let policy = CreatePolicy::new(&branches, 0);

    let selected = policy.select(Policy::Lfs, None).unwrap();
    assert!(selected.can_create());
}

#[test]
fn test_create_policy_select_rand() {
    let (_temp1, branch1) = create_test_branch("disk1");
    let (_temp2, branch2) = create_test_branch("disk2");

    let branches = vec![branch1, branch2];
    let policy = CreatePolicy::new(&branches, 0);

    for _ in 0..5 {
        let selected = policy.select(Policy::Rand, None).unwrap();
        assert!(selected.can_create());
    }
}

#[test]
fn test_create_policy_select_pfrd() {
    let (_temp1, branch1) = create_test_branch("disk1");
    let (_temp2, branch2) = create_test_branch("disk2");

    let branches = vec![branch1, branch2];
    let policy = CreatePolicy::new(&branches, 0);

    let selected = policy.select(Policy::Pfrd, None).unwrap();
    assert!(selected.can_create());
}

#[test]
fn test_create_policy_select_lus() {
    let (_temp1, branch1) = create_test_branch("disk1");
    let (_temp2, branch2) = create_test_branch("disk2");

    let branches = vec![branch1, branch2];
    let policy = CreatePolicy::new(&branches, 0);

    let selected = policy.select(Policy::Lus, None).unwrap();
    assert!(selected.can_create());
}

#[test]
fn test_create_policy_select_lup() {
    let (_temp1, branch1) = create_test_branch("disk1");
    let (_temp2, branch2) = create_test_branch("disk2");

    let branches = vec![branch1, branch2];
    let policy = CreatePolicy::new(&branches, 0);

    let selected = policy.select(Policy::Lup, None).unwrap();
    assert!(selected.can_create());
}

#[test]
fn test_create_policy_no_suitable_branch() {
    let (_temp1, branch1) = create_test_branch("disk1");
    let mut branch_ro = branch1;
    branch_ro.mode = BranchMode::RO;

    let branches = vec![branch_ro];
    let policy = CreatePolicy::new(&branches, 0);

    let result = policy.select(Policy::Mfs, None);
    assert!(result.is_err());
}

#[test]
fn test_create_policy_with_minfreespace() {
    let (_temp, branch) = create_test_branch("disk");
    let branches = vec![branch];
    let policy = CreatePolicy::new(&branches, u64::MAX);

    let result = policy.select(Policy::Mfs, None);
    assert!(result.is_err());
}

#[test]
fn test_create_policy_epmfs_fallback() {
    let (_temp1, branch1) = create_test_branch("disk1");
    let (_temp2, branch2) = create_test_branch("disk2");

    let branches = vec![branch1, branch2];
    let policy = CreatePolicy::new(&branches, 0);

    let selected = policy.select(Policy::EpMfs, Some("nonexistent.txt")).unwrap();
    assert!(selected.can_create());
}

#[test]
fn test_search_policy_select_ff_not_found() {
    let (_temp, branch) = create_test_branch("disk");

    let branches = vec![branch];
    let policy = SearchPolicy::new(&branches);

    let result = policy.select(Policy::Ff, "nonexistent.txt");
    assert!(result.is_err());
}

#[test]
fn test_search_policy_select_all() {
    let (_temp, branch) = create_test_branch("disk");

    let branches = vec![branch];
    let policy = SearchPolicy::new(&branches);

    let selected = policy.select(Policy::All, "any.txt").unwrap();
    assert_eq!(selected.path, branches.first().unwrap().path);
}

#[test]
fn test_search_policy_select_epall() {
    let (_temp, branch) = create_test_branch("disk");

    let branches = vec![branch];
    let policy = SearchPolicy::new(&branches);

    let selected = policy.select(Policy::EpAll, "any.txt").unwrap();
    assert_eq!(selected.path, branches.first().unwrap().path);
}

#[test]
fn test_search_policy_select_fallback() {
    let (_temp, branch) = create_test_branch("disk");

    let branches = vec![branch];
    let policy = SearchPolicy::new(&branches);

    let selected = policy.select(Policy::Lus, "nonexistent.txt");
    assert!(selected.is_err());
}

#[test]
fn test_search_policy_find_all_none() {
    let (_temp1, branch1) = create_test_branch("disk1");
    let (_temp2, branch2) = create_test_branch("disk2");

    let branches = vec![branch1, branch2];
    let policy = SearchPolicy::new(&branches);

    let found = policy.find_all("nonexistent.txt");
    assert!(found.is_empty());
}

#[test]
fn test_parse_size() {
    assert_eq!(parse_size("1024").unwrap(), 1024);
    assert_eq!(parse_size("1000").unwrap(), 1000);

    assert_eq!(parse_size("1K").unwrap(), 1000);
    assert_eq!(parse_size("1KB").unwrap(), 1000);
    assert_eq!(parse_size("1M").unwrap(), 1_000_000);
    assert_eq!(parse_size("1MB").unwrap(), 1_000_000);
    assert_eq!(parse_size("1G").unwrap(), 1_000_000_000);
    assert_eq!(parse_size("1GB").unwrap(), 1_000_000_000);
    assert_eq!(parse_size("1T").unwrap(), 1_000_000_000_000);
    assert_eq!(parse_size("1TB").unwrap(), 1_000_000_000_000);
    assert_eq!(parse_size("1P").unwrap(), 1_000_000_000_000_000);
    assert_eq!(parse_size("1PB").unwrap(), 1_000_000_000_000_000);

    assert_eq!(parse_size("1KIB").unwrap(), 1024);
    assert_eq!(parse_size("1MIB").unwrap(), 1024 * 1024);
    assert_eq!(parse_size("1GIB").unwrap(), 1024 * 1024 * 1024);
    assert_eq!(parse_size("1TIB").unwrap(), 1024 * 1024 * 1024 * 1024);
    assert_eq!(parse_size("1PIB").unwrap(), 1024 * 1024 * 1024 * 1024 * 1024);

    assert_eq!(parse_size("1.5K").unwrap(), 1500);
    assert_eq!(parse_size("1.5M").unwrap(), 1_500_000);

    assert!(parse_size("1X").is_err());
    assert!(parse_size("abc").is_err());
}

#[test]
fn test_parse_size_edge_cases() {
    assert_eq!(parse_size("0").unwrap(), 0);
    assert_eq!(parse_size("0B").unwrap(), 0);
    assert_eq!(parse_size("0K").unwrap(), 0);
    assert_eq!(parse_size("0.0").unwrap(), 0);

    assert_eq!(parse_size("  1K  ").unwrap(), 1000);
    assert_eq!(parse_size("1MB ").unwrap(), 1_000_000);
    assert_eq!(parse_size(" 1G").unwrap(), 1_000_000_000);

    assert_eq!(parse_size("1k").unwrap(), 1000);
    assert_eq!(parse_size("1kb").unwrap(), 1000);
    assert_eq!(parse_size("1m").unwrap(), 1_000_000);
    assert_eq!(parse_size("1g").unwrap(), 1_000_000_000);
    assert_eq!(parse_size("1t").unwrap(), 1_000_000_000_000);
    assert_eq!(parse_size("1p").unwrap(), 1_000_000_000_000_000);
    assert_eq!(parse_size("1kib").unwrap(), 1024);
    assert_eq!(parse_size("1mib").unwrap(), 1024 * 1024);

    assert_eq!(parse_size("0.5K").unwrap(), 500);
    assert_eq!(parse_size("0.1M").unwrap(), 100_000);
    assert_eq!(parse_size("2.5G").unwrap(), 2_500_000_000);

    assert_eq!(parse_size("1000GB").unwrap(), 1_000_000_000_000);
    assert_eq!(parse_size("100TB").unwrap(), 100_000_000_000_000);

    assert!(parse_size("").is_err());
    assert!(parse_size(" ").is_err());
    assert!(parse_size("K").is_err());
    assert!(parse_size("1.2.3K").is_err());
    assert!(parse_size("-1K").is_err());
    assert!(parse_size("1KK").is_err());
    assert!(parse_size("1KBKB").is_err());
    assert!(parse_size("1 XYZ").is_err());
}

#[test]
fn test_policy_to_non_ep_conversion() {
    assert_eq!(Policy::EpMfs.to_non_ep_policy(), Policy::Mfs);
    assert_eq!(Policy::EpFf.to_non_ep_policy(), Policy::Ff);
    assert_eq!(Policy::EpRand.to_non_ep_policy(), Policy::Rand);
    assert_eq!(Policy::EpAll.to_non_ep_policy(), Policy::All);

    assert_eq!(Policy::Pfrd.to_non_ep_policy(), Policy::Pfrd);
    assert_eq!(Policy::Mfs.to_non_ep_policy(), Policy::Mfs);
    assert_eq!(Policy::Ff.to_non_ep_policy(), Policy::Ff);
    assert_eq!(Policy::Rand.to_non_ep_policy(), Policy::Rand);
    assert_eq!(Policy::Lfs.to_non_ep_policy(), Policy::Lfs);
    assert_eq!(Policy::Lus.to_non_ep_policy(), Policy::Lus);
    assert_eq!(Policy::Lup.to_non_ep_policy(), Policy::Lup);
    assert_eq!(Policy::All.to_non_ep_policy(), Policy::All);
}

#[test]
fn test_create_policy_with_empty_branches() {
    let branches: Vec<Branch> = vec![];
    let policy = CreatePolicy::new(&branches, 0);

    assert!(policy.select(Policy::Mfs, None).is_err());
    assert!(policy.select(Policy::Ff, None).is_err());
    assert!(policy.select(Policy::Rand, None).is_err());
    assert!(policy.select(Policy::Pfrd, None).is_err());
}

#[test]
fn test_search_policy_with_empty_branches() {
    let branches: Vec<Branch> = vec![];
    let policy = SearchPolicy::new(&branches);

    assert!(policy.select(Policy::Ff, "file.txt").is_err());
    assert!(policy.select(Policy::All, "file.txt").is_err());
    assert!(policy.select(Policy::Mfs, "file.txt").is_err());
}

#[test]
fn test_create_policy_all_branches_ro() {
    let (_temp1, mut branch1) = create_test_branch("disk1");
    let (_temp2, mut branch2) = create_test_branch("disk2");
    branch1.mode = BranchMode::RO;
    branch2.mode = BranchMode::RO;

    let branches = vec![branch1, branch2];
    let policy = CreatePolicy::new(&branches, 0);

    assert!(policy.select(Policy::Mfs, None).is_err());
    assert!(policy.select(Policy::Ff, None).is_err());
    assert!(policy.select(Policy::Rand, None).is_err());
}

#[test]
fn test_create_policy_mixed_branch_modes() {
    let (_temp1, mut branch1) = create_test_branch("disk1");
    let (_temp2, mut branch2) = create_test_branch("disk2");
    let (_temp3, mut branch3) = create_test_branch("disk3");
    branch1.mode = BranchMode::RW;
    branch2.mode = BranchMode::RO;
    branch3.mode = BranchMode::NC;

    let branches = vec![branch1, branch2, branch3];
    let policy = CreatePolicy::new(&branches, 0);

    let selected = policy.select(Policy::Ff, None).unwrap();
    assert_eq!(selected.mode, BranchMode::RW);
}

#[test]
fn test_search_policy_mfs_no_matching_branch() {
    let (_temp1, branch1) = create_test_branch("disk1");
    let (_temp2, branch2) = create_test_branch("disk2");

    let branches = vec![branch1, branch2];
    let policy = SearchPolicy::new(&branches);

    let result = policy.select(Policy::Mfs, "nonexistent.txt");
    assert!(result.is_err());
}

#[test]
fn test_search_policy_lfs_no_matching_branch() {
    let (_temp1, branch1) = create_test_branch("disk1");
    let (_temp2, branch2) = create_test_branch("disk2");

    let branches = vec![branch1, branch2];
    let policy = SearchPolicy::new(&branches);

    let result = policy.select(Policy::Lfs, "nonexistent.txt");
    assert!(result.is_err());
}

#[test]
fn test_create_policy_with_relative_path_none() {
    let (_temp1, branch1) = create_test_branch("disk1");
    let (_temp2, branch2) = create_test_branch("disk2");

    let branches = vec![branch1, branch2];
    let policy = CreatePolicy::new(&branches, 0);

    let selected = policy.select(Policy::EpMfs, None).unwrap();
    assert!(selected.can_create());
}

#[test]
fn test_create_policy_select_mfs() {
    let (temp1, branch1) = create_test_branch("disk1");
    let (temp2, branch2) = create_test_branch("disk2");
    make_file(temp1.path().to_str().unwrap(), "file.txt", "small");
    make_file(temp2.path().to_str().unwrap(), "file.txt", "larger content file");

    let branches = vec![branch1, branch2];
    let policy = CreatePolicy::new(&branches, 0);

    let selected = policy.select(Policy::Mfs, None).unwrap();
    assert!(selected.can_create());
}

#[test]
fn test_create_policy_epmfs_with_existing_path() {
    let (_temp1, branch1) = create_test_branch("disk1");
    let (_temp2, branch2) = create_test_branch("disk2");
    make_file(&branch1.path, "existing.txt", "content");

    let branches = vec![branch1, branch2];
    let policy = CreatePolicy::new(&branches, 0);

    let selected = policy.select(Policy::EpMfs, Some("existing.txt")).unwrap();
    assert!(selected.can_create());
}

#[test]
fn test_create_policy_epff_with_existing_path() {
    let (_temp1, branch1) = create_test_branch("disk1");
    let (_temp2, branch2) = create_test_branch("disk2");
    make_file(&branch1.path, "existing.txt", "content");

    let branches = vec![branch1, branch2];
    let policy = CreatePolicy::new(&branches, 0);

    let selected = policy.select(Policy::EpFf, Some("existing.txt")).unwrap();
    assert_eq!(selected.path, branches.first().unwrap().path);
}

#[test]
fn test_create_policy_eprand_with_existing_path() {
    let (_temp1, branch1) = create_test_branch("disk1");
    let (_temp2, branch2) = create_test_branch("disk2");
    make_file(&branch1.path, "existing.txt", "content");

    let branches = vec![branch1, branch2];
    let policy = CreatePolicy::new(&branches, 0);

    let selected = policy.select(Policy::EpRand, Some("existing.txt")).unwrap();
    assert_eq!(selected.path, branches.first().unwrap().path);
}

#[test]
fn test_search_policy_select_ff() {
    let (_temp, branch) = create_test_branch("disk");
    make_file(&branch.path, "file.txt", "content");

    let branches = vec![branch];
    let policy = SearchPolicy::new(&branches);

    let selected = policy.select(Policy::Ff, "file.txt").unwrap();
    assert_eq!(selected.path, branches.first().unwrap().path);
}

#[test]
fn test_search_policy_select_mfs() {
    let (_temp, branch) = create_test_branch("disk");
    make_file(&branch.path, "file.txt", "content");

    let branches = vec![branch];
    let policy = SearchPolicy::new(&branches);

    let selected = policy.select(Policy::Mfs, "file.txt").unwrap();
    assert_eq!(selected.path, branches.first().unwrap().path);
}

#[test]
fn test_search_policy_select_lfs() {
    let (_temp, branch) = create_test_branch("disk");
    make_file(&branch.path, "file.txt", "content");

    let branches = vec![branch];
    let policy = SearchPolicy::new(&branches);

    let selected = policy.select(Policy::Lfs, "file.txt").unwrap();
    assert_eq!(selected.path, branches.first().unwrap().path);
}

#[test]
fn test_search_policy_find_all() {
    let (_temp1, branch1) = create_test_branch("disk1");
    let (_temp2, branch2) = create_test_branch("disk2");
    make_file(&branch1.path, "shared.txt", "content1");
    make_file(&branch2.path, "shared.txt", "content2");

    let branches = vec![branch1, branch2];
    let policy = SearchPolicy::new(&branches);

    let found = policy.find_all("shared.txt");
    assert_eq!(found.len(), 2);
}

#[test]
fn test_search_policy_with_ro_branches() {
    let (_temp1, mut branch1) = create_test_branch("disk1");
    let (_temp2, mut branch2) = create_test_branch("disk2");
    branch1.mode = BranchMode::RW;
    branch2.mode = BranchMode::RO;
    make_file(&branch1.path, "file.txt", "content1");
    make_file(&branch2.path, "file.txt", "content2");

    let branches = vec![branch1, branch2];
    let policy = SearchPolicy::new(&branches);

    let selected = policy.select(Policy::Ff, "file.txt").unwrap();
    assert!(selected.can_create() || !selected.can_create());
}

#[test]
fn test_create_policy_epall_with_multiple_existing_paths() {
    let (_temp1, branch1) = create_test_branch("disk1");
    let (_temp2, branch2) = create_test_branch("disk2");
    make_file(&branch1.path, "existing.txt", "content1");
    make_file(&branch2.path, "existing.txt", "content2");

    let branches = vec![branch1, branch2];
    let policy = CreatePolicy::new(&branches, 0);

    let selected = policy.select(Policy::EpAll, Some("existing.txt")).unwrap();
    assert_eq!(selected.path, branches.first().unwrap().path);
}

#[test]
fn parse_size_decimal_rounds_down() {
    assert_eq!(parse_size("1.0005K").unwrap(), 1000);
    assert_eq!(parse_size("0.57K").unwrap(), 570);
    assert_eq!(parse_size("1.5KiB").unwrap(), 1536);
    assert!(parse_size("18446744073709551616").is_err());
    assert_eq!(parse_size("18446744073709551615").unwrap(), u64::MAX);
    assert_eq!(parse_size("+7").unwrap(), 7);
}

#[test]
fn policy_round_trip_for_every_policy() {
    let all = [
        Policy::Pfrd, Policy::Mfs, Policy::Ff, Policy::Rand, Policy::Lfs, Policy::Lus,
        Policy::Lup, Policy::EpMfs, Policy::EpFf, Policy::EpRand, Policy::EpAll, Policy::All,
    ];
    for p in all {
        assert_eq!(Policy::parse(&p.to_string()).unwrap(), p);
        let q = p.to_non_ep_policy();
        assert!(!q.is_path_preserving());
        assert_eq!(q.to_non_ep_policy(), q);
    }
}
