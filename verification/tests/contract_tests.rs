use nofs::branch::Branch;
use nofs::commands::cp::{
    parse_file_over_file, parse_folder_conflict_mode, reserve_transfer, Attribute, Comparison, CopyStats, FileOverFileMode,
    RuleAction, Target,
};
use nofs::commands::mv::MoveConfig;
use nofs::commands::stat::truncate_path;
use nofs::commands::tree::{level_in_order, TreeNode};
use nofs::config::{config_places_under, first_found};
use nofs::conflict::{files_differ, BranchConflict};
use nofs::nearest::used_percent_key;
use nofs::pool::PoolManager;
use nofs::size::parse_size;
use tempfile::TempDir;

fn copy(path: &str, size: u64, hash: Option<&str>) -> BranchConflict {
    BranchConflict {
        branch_name: path.to_string(),
        path: path.to_string(),
        size,
        hash: hash.map(|h| h.to_string()),
        mtime: None,
        ctime: None,
    }
}

fn node(name: &str) -> TreeNode {
    TreeNode { name: name.to_string(), is_file: true, children: vec![], size: None, branches: vec![] }
}

#[test]
fn truncation_counts_bytes() {
    assert_eq!(truncate_path("ééé", 5), "...é");
    assert_eq!(truncate_path("ééé", 6), "ééé");
    assert_eq!(truncate_path("abcdefgh", 5), "...gh");
    assert_eq!(truncate_path("abc", 5), "abc");
    assert_eq!(truncate_path("abcdef", 2), "...");
    assert_eq!(truncate_path("aéé", 4), "...");
    let long = "/mnt/disk/some/very/long/path/with/many/parts/inside/it";
    let shown = truncate_path(long, 40);
    assert_eq!(shown.len(), 40);
    assert!(shown.starts_with("...") && long.ends_with(&shown[3..]));
}

#[test]
fn conditions_without_mode_default_to_delete_dest() {
    let st = parse_file_over_file("skip-hash").unwrap();
    assert_eq!(st.rules.len(), 1);
    assert_eq!(st.rules[0].action, RuleAction::Skip);
    assert_eq!(st.rules[0].attribute, Attribute::Hash);
    assert_eq!(st.rules[0].comparison, Comparison::Equal);
    assert_eq!(st.rules[0].target, Target::Dest);
    assert_eq!(st.required, FileOverFileMode::DeleteDest);
    let two = parse_file_over_file("skip-size skip-modified-newer").unwrap();
    assert_eq!(two.rules.len(), 2);
    assert_eq!(two.required, FileOverFileMode::DeleteDest);
    let e = parse_file_over_file("skip-bogus skip-hash").unwrap_err();
    assert!(e.to_string().contains("Unknown file-over-file option: skip-bogus"));
    let e = parse_file_over_file("skip-hash nonsense").unwrap_err();
    assert!(e.to_string().contains("Unknown file-over-file mode: nonsense"));
}

#[test]
fn first_copy_hash_decides_and_full_hashes_are_order_free() {
    let hashed = copy("/a", 10, Some("h1"));
    let unhashed = copy("/b", 10, None);
    assert!(files_differ(&[hashed.clone(), unhashed.clone()], true));
    assert!(!files_differ(&[unhashed.clone(), hashed.clone()], true));
    let same = copy("/c", 10, Some("h1"));
    let other = copy("/d", 10, Some("h2"));
    assert!(!files_differ(&[same.clone(), hashed.clone()], true));
    assert!(files_differ(&[hashed.clone(), same.clone(), other.clone()], true));
    assert!(files_differ(&[other.clone(), same.clone(), hashed.clone()], true));
    assert!(files_differ(&[same, other, hashed], true));
    assert!(!files_differ(&[unhashed.clone(), copy("/e", 10, Some("h2"))], false));
}

#[test]
fn default_config_places_in_order() {
    let with_home = config_places_under(Some("/home/u".to_string()));
    assert_eq!(
        with_home,
        vec![
            "nofs.toml".to_string(),
            ".nofs.toml".to_string(),
            "/home/u/.config/nofs/config.toml".to_string(),
            "/home/u/.config/nofs/nofs.toml".to_string(),
            "/etc/nofs/config.toml".to_string(),
        ]
    );
    assert_eq!(config_places_under(None), vec!["nofs.toml", ".nofs.toml", "/etc/nofs/config.toml"]);
    assert_eq!(first_found(&[false, false, true, true]), Some(2));
    assert_eq!(first_found(&[true, true]), Some(0));
    assert_eq!(first_found(&[false, false]), None);
    assert_eq!(first_found(&[]), None);
}

#[test]
fn limits_hold_over_a_run_of_files() {
    let mut stats = CopyStats::default();
    let taken: Vec<bool> = [5_u64, 5, 5].iter().map(|s| reserve_transfer(&mut stats, *s, Some(2), None)).collect();
    assert_eq!(taken, vec![true, true, false]);
    assert_eq!(stats.files_reserved, 2);
    let mut stats = CopyStats::default();
    let taken: Vec<bool> =
        [4_u64, 4, 2, 1].iter().map(|s| reserve_transfer(&mut stats, *s, None, Some(10))).collect();
    assert_eq!(taken, vec![true, true, true, false]);
    assert_eq!(stats.bytes_reserved, 10);
    let mut stats = CopyStats::default();
    assert!(reserve_transfer(&mut stats, 3, Some(1), Some(10)));
    assert!(!reserve_transfer(&mut stats, 3, Some(1), Some(10)));
    assert_eq!((stats.files_reserved, stats.bytes_reserved), (1, 6));
}

#[test]
fn whole_numbers_between_blanks_parse_to_themselves() {
    assert_eq!(parse_size("  42 \t").unwrap(), 42);
    assert_eq!(parse_size("\n18446744073709551615 ").unwrap(), u64::MAX);
    assert_eq!(parse_size(" 0").unwrap(), 0);
}

#[test]
fn errors_name_what_is_missing() {
    let e = Branch::parse("/nonexistent/nofs/branch/x=RO").unwrap_err();
    assert_eq!(e.to_string(), "Branch error: Branch path does not exist: /nonexistent/nofs/branch/x");
    let root = TempDir::new().unwrap();
    let p = root.path().display().to_string();
    let m = PoolManager::from_paths(&p, "ff", "4G").unwrap();
    let e = m.get_pool("media").err().unwrap();
    assert!(e.to_string().ends_with("Share 'media' not found"));
    let e = m.resolve_context_path("zzz:/x").err().unwrap();
    assert!(e.to_string().ends_with("Share 'zzz' not found"));
}

#[test]
fn tree_level_order_is_checked() {
    assert!(level_in_order(&[]));
    assert!(level_in_order(&[node("a"), node("b"), node("c")]));
    assert!(!level_in_order(&[node("a"), node("c"), node("b")]));
    assert!(!level_in_order(&[node("a"), node("a")]));
}

fn move_config<'a>(sources: &'a [String], fof: &'a str, fofo: &'a str, fofi: &'a str) -> MoveConfig<'a> {
    MoveConfig {
        sources,
        destination: "/dest",
        file_over_file: fof,
        file_over_folder: fofo,
        folder_over_file: fofi,
        simulate: true,
        workers: 2,
        verbose: false,
        extensions: vec![],
        exclude: vec![],
        include_patterns: vec![],
        limit: Some(3),
        size_limit: None,
        size: None,
        share: None,
    }
}

#[test]
fn move_settings_report_the_first_bad_one() {
    let e = parse_folder_conflict_mode("Overwrite").unwrap_err();
    assert_eq!(e.to_string(), "Parse error: Unknown folder conflict mode: Overwrite");
    let sources = vec!["/a".to_string()];
    let c = move_config(&sources, "skip-hash", "merge", "SKIP").copy_config().unwrap();
    assert!(!c.is_copy && c.dry_run && c.workers == 2 && c.limit == Some(3));
    assert_eq!(c.file_over_file.required, FileOverFileMode::DeleteDest);
    let e = move_config(&sources, "skip-hash bogus", "nope", "nada").copy_config().err().unwrap();
    assert_eq!(e.to_string(), "Parse error: Unknown file-over-file mode: bogus");
    let e = move_config(&sources, "skip", "nope", "nada").copy_config().err().unwrap();
    assert_eq!(e.to_string(), "Parse error: Unknown folder conflict mode: nope");
    let e = move_config(&sources, "skip", "merge", "nada").copy_config().err().unwrap();
    assert_eq!(e.to_string(), "Parse error: Unknown folder conflict mode: nada");
}

fn shown_as_f64(size: u64) -> String {
    let units: [(u64, &str); 5] = [
        (1_000_000_000_000_000, "PB"),
        (1_000_000_000_000, "TB"),
        (1_000_000_000, "GB"),
        (1_000_000, "MB"),
        (1_000, "KB"),
    ];
    for (unit, name) in units {
        if size >= unit {
            return format!("{:.1} {}", size as f64 / unit as f64, name);
        }
    }
    format!("{size} B")
}

#[test]
fn sizes_are_shown_as_their_binary64_quotient() {
    assert_eq!(nofs::utils::format_size(1050), "1.1 KB");
    assert_eq!(nofs::utils::format_size(1150), "1.1 KB");
    assert_eq!(nofs::utils::format_size(1250), "1.2 KB");
    assert_eq!(nofs::utils::format_size(1500), "1.5 KB");
    let mut samples: Vec<u64> = (0..50_000).map(|i| 1000 + i * 7).collect();
    samples.extend((0..2000).map(|i| 1_000_000 + i * 50_000 + 50_000 - (i % 3)));
    samples.extend((0..2000).map(|i| 9_007_199_254_740_000 + i * 977));
    samples.extend((0..64).map(|i| u64::MAX - i * 12_345));
    samples.extend((0..64).map(|i| (1u64 << 53) + i));
    for size in samples {
        assert_eq!(nofs::utils::format_size(size), shown_as_f64(size), "size {size}");
    }
}

fn binary_as_f64(size: u64, with_tb: bool, small: &str) -> String {
    let kb: u64 = 1024;
    let (mb, gb, tb) = (kb * 1024, kb * 1024 * 1024, kb * 1024 * 1024 * 1024);
    if with_tb && size >= tb {
        format!("{:.1}T", size as f64 / tb as f64)
    } else if size >= gb {
        format!("{:.1}G", size as f64 / gb as f64)
    } else if size >= mb {
        format!("{:.1}M", size as f64 / mb as f64)
    } else if size >= kb {
        format!("{:.1}K", size as f64 / kb as f64)
    } else {
        format!("{size}{small}")
    }
}

#[test]
fn binary_sizes_are_shown_as_their_binary64_quotient() {
    let mut samples: Vec<u64> = (0..20_000).map(|i| i * 53).collect();
    samples.extend((0..5000).map(|i| 1_048_576 + i * 104_857 + (i % 7)));
    samples.extend((0..2000).map(|i| (1u64 << 53) - 1000 + i * 3));
    samples.extend((0..64).map(|i| u64::MAX - i * 99_991));
    for size in samples {
        assert_eq!(nofs::commands::tree::format_size(size), binary_as_f64(size, false, "B"), "tree {size}");
        assert_eq!(nofs::commands::df::format_size(size), binary_as_f64(size, true, ""), "df {size}");
        assert_eq!(nofs::commands::ls::human_size(size), binary_as_f64(size, true, "B"), "ls {size}");
    }
}

fn used_percent_as_f64(a: u64, t: u64) -> i64 {
    (100.0 - (a as f64 / t as f64) * 100.0) as i64
}

#[test]
fn used_percent_key_is_the_binary64_result() {
    assert_eq!(used_percent_key(11, 20), 44);
    assert_eq!(used_percent_key(0, 20), 100);
    assert_eq!(used_percent_key(20, 20), 0);
    let mut pairs: Vec<(u64, u64)> = Vec::new();
    for t in 1..120_u64 {
        for a in 0..(2 * t + 3) {
            pairs.push((a, t));
        }
    }
    let mut x: u64 = 0x9e37_79b9_7f4a_7c15;
    for _ in 0..200_000 {
        x ^= x << 13;
        x ^= x >> 7;
        x ^= x << 17;
        let t = (x >> (x % 64)).max(1);
        let y = x.rotate_left(29) ^ 0x5555_5555;
        let a = y >> (y % 64);
        pairs.push((a, t));
        pairs.push((t / 3, t));
        pairs.push((a, 1 + (x % 1000)));
    }
    pairs.extend([(u64::MAX, 1), (u64::MAX, 3), (1, u64::MAX), (u64::MAX - 1, u64::MAX), (1 << 60, 7)]);
    for (a, t) in pairs {
        assert_eq!(used_percent_key(a, t), used_percent_as_f64(a, t), "a {a} t {t}");
    }
}

fn decimal_size_as_f64(num: &str, unit: f64) -> Option<u64> {
    let x: f64 = num.parse().unwrap();
    let r = x * unit;
    if !(0.0..=((u64::MAX >> 10) as f64)).contains(&r) {
        None
    } else {
        Some(r as u64)
    }
}

#[test]
fn decimal_sizes_are_the_binary64_product() {
    assert_eq!(parse_size("2.01K").unwrap(), 2009);
    assert_eq!(parse_size("1.005K").unwrap(), 1004);
    assert_eq!(parse_size("1.5K").unwrap(), 1500);
    let units: [(&str, f64); 12] = [
        ("", 1.0),
        ("K", 1000.0),
        ("MB", 1_000_000.0),
        ("G", 1e9),
        ("T", 1e12),
        ("PB", 1e15),
        ("KiB", 1024.0),
        ("MiB", 1_048_576.0),
        ("GiB", 1_073_741_824.0),
        ("TiB", 1_099_511_627_776.0),
        ("PiB", 1_125_899_906_842_624.0),
        ("B", 1.0),
    ];
    let mut numbers: Vec<String> = Vec::new();
    for i in 0..3000_u64 {
        numbers.push(format!("{}.{:03}", i / 7, (i * 37) % 1000));
        numbers.push(format!("0.{:07}", i * 3331));
        numbers.push(format!("{}.{}", i * 104_729, i % 10));
    }
    numbers.extend(
        [
            "18014398509481983.9", "18014398509481984.0", "18014398509481985.5", "72057594037927935.9",
            "72057594037927936.0", "9007199254740993.5", "0.1", "0.2", "0.3", "1.", ".5", "4503599627370495.5",
            "0.000000000000000000000000000000000000000001", "123456789012345678901234567890.5",
            "1.00000000000000000000000000000000000000000000000000000000000000000000000000000001",
        ]
        .iter()
        .map(|s| s.to_string()),
    );
    for num in &numbers {
        for (unit, factor) in units {
            let text = format!("{num}{unit}");
            let expected = decimal_size_as_f64(num, factor);
            assert_eq!(parse_size(&text).ok(), expected, "{text}");
        }
    }
}
