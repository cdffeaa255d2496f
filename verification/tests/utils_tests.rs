use nofs::utils::{format_size, parse_path_with_context, HashConfig};

#[test]
fn test_parse_path_with_context_share_path() {
    let parsed = parse_path_with_context("media:/photos/vacation.jpg");
    assert!(!parsed.has_no_colon);
    assert!(!parsed.is_unc);
    assert!(parsed.matches_share("media"));
    assert_eq!(parsed.path_after_colon, "/photos/vacation.jpg");
}

#[test]
fn test_parse_path_with_context_share_relative() {
    let parsed = parse_path_with_context("docs:readme.txt");
    assert!(!parsed.has_no_colon);
    assert!(!parsed.is_unc);
    assert!(parsed.matches_share("docs"));
    assert_eq!(parsed.path_after_colon, "readme.txt");
}

#[test]
fn test_parse_path_with_context_windows_drive_backslash() {
    let parsed = parse_path_with_context("C:\\Users\\file.txt");
    assert!(!parsed.has_no_colon);
    assert!(!parsed.is_unc);
    assert!(parsed.looks_like_windows_drive());
    assert_eq!(parsed.prefix, "C");
    assert_eq!(parsed.path_after_colon, "\\Users\\file.txt");
}

#[test]
fn test_parse_path_with_context_windows_drive_forward_slash() {
    let parsed = parse_path_with_context("D:/data/file.txt");
    assert!(!parsed.has_no_colon);
    assert!(!parsed.is_unc);
    assert!(parsed.looks_like_windows_drive());
    assert_eq!(parsed.prefix, "D");
    assert_eq!(parsed.path_after_colon, "/data/file.txt");
}

#[test]
fn test_parse_path_with_context_unc_path() {
    let parsed = parse_path_with_context("\\\\server\\share\\file.txt");
    assert!(parsed.has_no_colon);
    assert!(!parsed.is_unc);
    assert!(!parsed.looks_like_windows_drive());
}

#[test]
fn test_parse_path_with_context_unix_absolute() {
    let parsed = parse_path_with_context("/home/user/file.txt");
    assert!(parsed.has_no_colon);
    assert!(!parsed.is_unc);
    assert!(!parsed.looks_like_windows_drive());
}

#[test]
fn test_parse_path_with_context_relative_path() {
    let parsed = parse_path_with_context("some/relative/path.txt");
    assert!(parsed.has_no_colon);
    assert!(!parsed.is_unc);
    assert!(!parsed.looks_like_windows_drive());
}

#[test]
fn test_parse_path_with_context_no_colon() {
    let parsed = parse_path_with_context("just_a_file.txt");
    assert!(parsed.has_no_colon);
    assert!(!parsed.is_unc);
    assert!(!parsed.looks_like_windows_drive());
}

#[test]
fn test_parse_path_with_context_single_letter_share() {
    let parsed = parse_path_with_context("x:some_file.txt");
    assert!(!parsed.has_no_colon);
    assert!(!parsed.looks_like_windows_drive());
    assert!(parsed.matches_share("x"));
}

#[test]
fn test_parse_path_with_context_single_letter_ambiguous() {
    let parsed = parse_path_with_context("d:/some/path");
    assert!(!parsed.has_no_colon);
    assert!(parsed.looks_like_windows_drive());
    assert!(parsed.matches_share("d"));
    assert_eq!(parsed.prefix, "d");
    assert_eq!(parsed.path_after_colon, "/some/path");
}

#[test]
fn test_parse_path_with_context_single_letter_not_share() {
    let parsed = parse_path_with_context("C:\\path");
    assert!(parsed.looks_like_windows_drive());
    assert!(parsed.matches_share("C"));
    assert!(!parsed.matches_share("D"));
}

#[test]
fn unc_prefix_before_colon_is_unc() {
    let parsed = parse_path_with_context("\\\\server\\share:file.txt");
    assert!(!parsed.has_no_colon);
    assert!(parsed.is_unc);
    assert_eq!(parsed.prefix, "\\\\server\\share");
    assert_eq!(parsed.path_after_colon, "file.txt");
}

#[test]
fn only_first_colon_splits() {
    let parsed = parse_path_with_context("media:a:b");
    assert_eq!(parsed.prefix, "media");
    assert_eq!(parsed.path_after_colon, "a:b");
}

#[test]
fn format_size_exact_values() {
    assert_eq!(format_size(999), "999 B");
    assert_eq!(format_size(1234), "1.2 KB");
    assert_eq!(format_size(1250), "1.2 KB");
    assert_eq!(format_size(1350), "1.4 KB");
    assert_eq!(format_size(999_999), "1000.0 KB");
    assert_eq!(format_size(3_000_000_000_000), "3.0 TB");
    assert_eq!(format_size(5_000_000_000_000_000), "5.0 PB");
    assert_eq!(format_size(u64::MAX), "18446.7 PB");
}

#[test]
fn hash_configs() {
    let c = HashConfig::conflict_detection();
    assert_eq!(c.small_file_threshold, 1_000_000);
    assert_eq!(c.sample_chunk_size, 8000);
    assert_eq!(c.num_samples, 0);
    let r = HashConfig::copy_resolution();
    assert_eq!(r.small_file_threshold, 640_000);
    assert_eq!(r.sample_chunk_size, 64_000);
    assert_eq!(r.num_samples, 10);
    let d = HashConfig::default();
    assert_eq!(d.small_file_threshold, c.small_file_threshold);
}
