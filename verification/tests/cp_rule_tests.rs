use nofs::commands::cp::{
    evaluate_rule, find_suffix_and_index_bytes, matches_extension, matches_filters, numbered_name,
    parse_file_over_file, parse_folder_conflict_mode, parse_size_filter, reserve_bytes,
    reserve_file, rule_result, shell_quote, size_in_filter, split_stem, Attribute, Comparison,
    CopyConfig, FileComparison, FileOverFileMode, FolderConflictMode, Rule, RuleAction,
    RuleResult, SizeFilter, Target,
};
use nofs::utils::format_size;

fn facts(src_size: u64, dest_size: u64) -> FileComparison {
    FileComparison {
        hashes_match: false,
        src_size,
        dest_size,
        src_modified: None,
        dest_modified: None,
        src_created: None,
        dest_created: None,
    }
}

#[test]
fn test_parse_file_over_file() {
    let strategy_default = parse_file_over_file("").unwrap();
    assert_eq!(strategy_default.required, FileOverFileMode::RenameDest);
    assert!(strategy_default.rules.is_empty());

    let strategy_skip = parse_file_over_file("skip").unwrap();
    assert_eq!(strategy_skip.required, FileOverFileMode::Skip);
    assert!(strategy_skip.rules.is_empty());

    let strategy2 = parse_file_over_file("skip-hash rename-dest").unwrap();
    assert_eq!(strategy2.rules.len(), 1);
    let Some(rule) = strategy2.rules.first() else {
        panic!("Expected rule at index 0");
    };
    assert_eq!(rule.action, RuleAction::Skip);
    assert_eq!(rule.attribute, Attribute::Hash);
    assert_eq!(rule.comparison, Comparison::Equal);
    assert_eq!(strategy2.required, FileOverFileMode::RenameDest);

    let strategy3 = parse_file_over_file("skip-hash skip-size delete-dest-larger delete-dest").unwrap();
    assert_eq!(strategy3.rules.len(), 3);
    let Some(rule0) = strategy3.rules.first() else {
        panic!("Expected rule at index 0");
    };
    assert_eq!(rule0.action, RuleAction::Skip);
    assert_eq!(rule0.attribute, Attribute::Hash);
    let Some(rule1) = strategy3.rules.get(1) else {
        panic!("Expected rule at index 1");
    };
    assert_eq!(rule1.action, RuleAction::Skip);
    assert_eq!(rule1.attribute, Attribute::Size);
    let Some(rule2) = strategy3.rules.get(2) else {
        panic!("Expected rule at index 2");
    };
    assert_eq!(rule2.action, RuleAction::DeleteDest);
    assert_eq!(rule2.attribute, Attribute::Size);
    assert_eq!(rule2.comparison, Comparison::Greater);
    assert_eq!(strategy3.required, FileOverFileMode::DeleteDest);
}

#[test]
fn test_rule_evaluation_hash() {
    let hash_rule = Rule {
        action: RuleAction::Skip,
        attribute: Attribute::Hash,
        comparison: Comparison::Equal,
        target: Target::Dest,
    };
    let cmp_match = FileComparison {
        hashes_match: true,
        src_size: 100,
        dest_size: 100,
        src_modified: None,
        dest_modified: None,
        src_created: None,
        dest_created: None,
    };
    let cmp_no_match = FileComparison {
        hashes_match: false,
        src_size: 100,
        dest_size: 100,
        src_modified: None,
        dest_modified: None,
        src_created: None,
        dest_created: None,
    };
    assert!(evaluate_rule(&hash_rule, &cmp_match));
    assert!(!evaluate_rule(&hash_rule, &cmp_no_match));
}

#[test]
fn test_rule_evaluation_size() {
    let size_equal_rule = Rule {
        action: RuleAction::Skip,
        attribute: Attribute::Size,
        comparison: Comparison::Equal,
        target: Target::Dest,
    };
    assert!(evaluate_rule(&size_equal_rule, &facts(100, 100)));
    assert!(!evaluate_rule(&size_equal_rule, &facts(100, 200)));

    let size_greater_rule = Rule {
        action: RuleAction::Skip,
        attribute: Attribute::Size,
        comparison: Comparison::Greater,
        target: Target::Src,
    };
    assert!(evaluate_rule(&size_greater_rule, &facts(200, 100)));
    assert!(!evaluate_rule(&size_greater_rule, &facts(100, 200)));
}

#[test]
fn test_rule_evaluation_modified() {
    let modified_greater_rule = Rule {
        action: RuleAction::Skip,
        attribute: Attribute::Modified,
        comparison: Comparison::Greater,
        target: Target::Src,
    };
    let mut cmp_greater = facts(100, 100);
    cmp_greater.src_modified = Some(200);
    cmp_greater.dest_modified = Some(100);
    let mut cmp_less = facts(100, 100);
    cmp_less.src_modified = Some(100);
    cmp_less.dest_modified = Some(200);
    let mut cmp_none = facts(100, 100);
    cmp_none.dest_modified = Some(100);
    assert!(evaluate_rule(&modified_greater_rule, &cmp_greater));
    assert!(!evaluate_rule(&modified_greater_rule, &cmp_less));
    assert!(!evaluate_rule(&modified_greater_rule, &cmp_none));
}

#[test]
fn test_rule_evaluation_created() {
    let created_less_rule = Rule {
        action: RuleAction::Skip,
        attribute: Attribute::Created,
        comparison: Comparison::Less,
        target: Target::Src,
    };
    let mut cmp_less = facts(100, 100);
    cmp_less.src_created = Some(100);
    cmp_less.dest_created = Some(200);
    let mut cmp_greater = facts(100, 100);
    cmp_greater.src_created = Some(200);
    cmp_greater.dest_created = Some(100);
    assert!(evaluate_rule(&created_less_rule, &cmp_less));
    assert!(!evaluate_rule(&created_less_rule, &cmp_greater));
}

#[test]
fn test_format_size() {
    assert_eq!(format_size(0), "0 B");
    assert_eq!(format_size(500), "500 B");
    assert_eq!(format_size(1000), "1.0 KB");
    assert_eq!(format_size(1500), "1.5 KB");
    assert_eq!(format_size(1_000_000), "1.0 MB");
    assert_eq!(format_size(1_500_000), "1.5 MB");
    assert_eq!(format_size(1_000_000_000), "1.0 GB");
    assert_eq!(format_size(2_500_000_000), "2.5 GB");
}

#[test]
fn test_parse_file_over_file_mtime_ctime_options() {
    let test_cases = vec![
        ("skip-modified-newer skip", true),
        ("skip-modified-older skip", true),
        ("skip-created-newer skip", true),
        ("skip-created-older skip", true),
        ("delete-dest-modified-newer delete-dest", true),
        ("delete-dest-modified-older delete-dest", true),
        ("delete-dest-created-newer delete-dest", true),
        ("delete-dest-created-older delete-dest", true),
        ("delete-src-modified-newer delete-src", true),
        ("delete-src-modified-older delete-src", true),
        ("delete-src-created-newer delete-src", true),
        ("delete-src-created-older delete-src", true),
        ("skip-modified-newer skip-created-older skip", true),
        ("delete-dest-created-older delete-dest-modified-newer delete-dest", true),
    ];

    for (input, should_succeed) in test_cases {
        let result = parse_file_over_file(input);
        if should_succeed {
            assert!(result.is_ok(), "Expected '{input}' to parse successfully, but got: {result:?}");
        } else {
            assert!(result.is_err(), "Expected '{input}' to fail, but it succeeded");
        }
    }
}

#[test]
fn unknown_mode_or_token_is_parse_error() {
    let e = parse_file_over_file("skip-hash nonsense").unwrap_err();
    assert!(e.to_string().contains("Unknown file-over-file mode: nonsense"));
    let e = parse_file_over_file("skip-bogus skip").unwrap_err();
    assert!(e.to_string().contains("Unknown file-over-file option: skip-bogus"));
    let ok = parse_file_over_file("   delete-src-smaller \t  skip  ").unwrap();
    assert_eq!(ok.rules.len(), 1);
    assert_eq!(ok.rules[0].action, RuleAction::DeleteSrc);
    assert_eq!(ok.rules[0].comparison, Comparison::Less);
    assert_eq!(ok.rules[0].target, Target::Src);
    assert_eq!(ok.required, FileOverFileMode::Skip);
}

#[test]
fn folder_conflict_modes_ignore_case() {
    assert_eq!(parse_folder_conflict_mode("MERGE").unwrap(), FolderConflictMode::Merge);
    assert_eq!(parse_folder_conflict_mode("Rename-Src").unwrap(), FolderConflictMode::RenameSrc);
    assert_eq!(parse_folder_conflict_mode("delete-dest").unwrap(), FolderConflictMode::DeleteDest);
    assert!(parse_folder_conflict_mode("overwrite").is_err());
}

#[test]
fn first_matching_rule_decides() {
    let strategy = parse_file_over_file("skip-larger delete-dest-size delete-src-smaller rename-dest").unwrap();
    assert_eq!(rule_result(&strategy, &facts(10, 5)), RuleResult::Skip);
    assert_eq!(rule_result(&strategy, &facts(5, 5)), RuleResult::DeleteDest);
    assert_eq!(rule_result(&strategy, &facts(4, 5)), RuleResult::DeleteSrc);
    let none = parse_file_over_file("skip-hash skip").unwrap();
    assert_eq!(rule_result(&none, &facts(4, 5)), RuleResult::NoMatch);
    assert_eq!(strategy.rules[0].display(), "source is larger than destination");
    assert_eq!(none.rules[0].display(), "hashes match");
}

#[test]
fn copy_config_defaults() {
    let c = CopyConfig::default();
    assert!(c.is_copy);
    assert!(!c.dry_run);
    assert_eq!(c.workers, 4);
    assert_eq!(c.file_over_file.required, FileOverFileMode::DeleteDest);
    assert!(c.file_over_file.rules.is_empty());
    assert_eq!(c.file_over_folder, FolderConflictMode::Merge);
    assert_eq!(c.folder_over_file, FolderConflictMode::Merge);
    assert!(c.limit.is_none() && c.size_limit.is_none() && c.size.is_none());
}

#[test]
fn size_filters_parse_and_apply() {
    let both = parse_size_filter("+5M-10M");
    assert_eq!((both.min, both.max), (Some(5_000_000), Some(10_000_000)));
    let min = parse_size_filter(" +1K ");
    assert_eq!((min.min, min.max), (Some(1000), None));
    let max = parse_size_filter("-2K");
    assert_eq!((max.min, max.max), (None, Some(2000)));
    let bare = parse_size_filter("3K");
    assert_eq!((bare.min, bare.max), (None, Some(3000)));
    let bad = parse_size_filter("+huge");
    assert_eq!((bad.min, bad.max), (None, None));
    assert!(size_in_filter(1500, Some(SizeFilter { min: Some(1000), max: Some(2000) })));
    assert!(!size_in_filter(2500, Some(SizeFilter { min: Some(1000), max: Some(2000) })));
    assert!(!size_in_filter(500, Some(SizeFilter { min: Some(1000), max: None })));
    assert!(size_in_filter(500, None));
}

#[test]
fn limits_reserve_until_full() {
    assert_eq!(reserve_bytes(0, 10, Some(15)), Some(10));
    assert_eq!(reserve_bytes(10, 10, Some(15)), None);
    assert_eq!(reserve_bytes(10, 10, None), Some(10));
    assert_eq!(reserve_bytes(u64::MAX, 1, Some(u64::MAX)), Some(u64::MAX));
    assert_eq!(reserve_file(2, Some(3)), Some(3));
    assert_eq!(reserve_file(3, Some(3)), None);
}

#[test]
fn extension_filter() {
    let exts = vec![".txt".to_string(), "md".to_string()];
    assert!(matches_extension("/a/b/notes.txt", &exts));
    assert!(matches_extension("readme.md", &exts));
    assert!(!matches_extension("image.png", &exts));
    assert!(!matches_extension("/a/.txt", &exts));
    assert!(matches_extension("anything", &[]));
    assert!(matches_extension("noext", &["".to_string()]));
}

#[test]
fn name_filters_use_globs() {
    let inc = vec!["*.log".to_string()];
    let exc = vec!["secret*".to_string()];
    assert!(matches_filters("/var/app.log", &inc, &exc));
    assert!(!matches_filters("/var/app.txt", &inc, &exc));
    assert!(!matches_filters("/var/secret.log", &inc, &exc));
    assert!(matches_filters("/var/app.txt", &[], &exc));
    assert!(!matches_filters("/var/x", &["[".to_string()], &[]));
}

#[test]
fn renaming_suffixes() {
    assert_eq!(find_suffix_and_index_bytes(b"file"), (4, 1));
    assert_eq!(find_suffix_and_index_bytes(b"file_1"), (4, 2));
    assert_eq!(find_suffix_and_index_bytes(b"file_1_2"), (6, 3));
    assert_eq!(find_suffix_and_index_bytes(b"file_name_999"), (9, 1000));
    assert_eq!(find_suffix_and_index_bytes(b"file_"), (5, 1));
    assert_eq!(find_suffix_and_index_bytes(b"file_x1"), (7, 1));
    assert_eq!(find_suffix_and_index_bytes(b"f_99999999999"), (13, 1));
    assert_eq!(split_stem(b"file.tar.gz"), 8);
    assert_eq!(split_stem(b".hidden"), 7);
    assert_eq!(split_stem(b"plain"), 5);
    assert_eq!(numbered_name(b"file", 2, b".txt"), b"file_2.txt".to_vec());
    assert_eq!(numbered_name(b"dir", 10, b""), b"dir_10".to_vec());
}

#[test]
fn shell_quoting() {
    assert_eq!(shell_quote(""), "''");
    assert_eq!(shell_quote("/tmp/a-b_c.txt"), "'/tmp/a-b_c.txt'");
    assert_eq!(shell_quote("it's here"), "'it'\\''s here'");
    assert_eq!(shell_quote("a b"), "'a b'");
}
