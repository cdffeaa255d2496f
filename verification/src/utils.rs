//! Share-qualified paths and file-hashing settings.
use crate::branch::opt_view;
use crate::size::{GB, KB, MB, PB, TB};
use crate::error::join2;
use crate::nearest::{double_tenths, quotient_tenths};
use crate::text::{decimal, decimal_string, digit_char, digit_of, push_char};
use crate::text::{
    find_char, first_index, is_ascii_alpha, lemma_first_index_bound, str_equal, to_chars,
};
use vstd::prelude::*;
use vstd::string::StrSliceExecFns;

verus! {

/// A path that may carry a share prefix, split at its first colon.
///
/// `prefix` is what stands before the first colon (a share name or a drive letter) and
/// `path_after_colon` what follows it; whether the prefix names a real share is for the
/// caller to decide with `matches_share`.
#[derive(Debug, Clone, Copy)]
pub struct ParsedPath<'a> {
    /// Before the first colon (the whole input when there is none).
    pub prefix: &'a str,
    /// After the first colon (empty when there is none).
    pub path_after_colon: &'a str,
    /// No colon at all: a native path.
    pub has_no_colon: bool,
    /// The prefix holds a path separator (`/` or `\`), as a UNC path does.
    pub is_unc: bool,
}

/// Whether `s` holds a `/` or a `\`.
pub open spec fn has_separator(s: Seq<char>) -> bool {
    s.contains('/') || s.contains('\\')
}

impl<'a> ParsedPath<'a> {
    /// Whether the prefix is exactly the given share name.
    pub fn matches_share(&self, share_name: &str) -> (r: bool)
        ensures
            r == (self.prefix@ == share_name@),
    {
        str_equal(self.prefix, share_name)
    }

    /// Whether this looks like a Windows drive: a one-letter ASCII prefix followed by a
    /// path that starts with `\` or `/`.
    pub fn looks_like_windows_drive(&self) -> (r: bool)
        ensures
            r == (self.prefix@.len() == 1 && is_ascii_alpha(self.prefix@[0])
                && self.path_after_colon@.len() > 0 && (self.path_after_colon@[0] == '\\'
                || self.path_after_colon@[0] == '/')),
    {
        let p = to_chars(self.prefix);
        let a = to_chars(self.path_after_colon);
        p.len() == 1 && (('a' <= p[0] && p[0] <= 'z') || ('A' <= p[0] && p[0] <= 'Z')) && a.len()
            > 0 && (a[0] == '\\' || a[0] == '/')
    }
}

/// Whether the characters of `v` hold `c`.
fn holds_char(v: &[char], c: char) -> (r: bool)
    ensures
        r == v@.contains(c),
{
    let i = find_char(v, c);
    proof {
        lemma_first_index_bound(v@, c);
        if !(i < v.len()) {
            assert forall|j: int| 0 <= j < v@.len() implies v@[j] != c by {}
        }
    }
    i < v.len()
}

/// Splits a path that may carry a share prefix at its first colon (see `ParsedPath`).
pub fn parse_path_with_context<'a>(input: &'a str) -> (r: ParsedPath<'a>)
    ensures
        first_index(input@, ':') >= input@.len() ==> r.prefix@ == input@
            && r.path_after_colon@.len() == 0 && r.has_no_colon && !r.is_unc,
        first_index(input@, ':') < input@.len() ==> r.prefix@ == input@.subrange(
            0,
            first_index(input@, ':') as int,
        ) && r.path_after_colon@ == input@.subrange(
            first_index(input@, ':') as int + 1,
            input@.len() as int,
        ) && !r.has_no_colon && r.is_unc == has_separator(r.prefix@),
{
    let v = to_chars(input);
    let i = find_char(v.as_slice(), ':');
    proof {
        lemma_first_index_bound(v@, ':');
    }
    if i >= v.len() {
        let empty = input.substring_char(0, 0);
        return ParsedPath { prefix: input, path_after_colon: empty, has_no_colon: true, is_unc: false };
    }
    let prefix = input.substring_char(0, i);
    let after = input.substring_char(i + 1, v.len());
    let pv = to_chars(prefix);
    let is_unc = holds_char(pv.as_slice(), '/') || holds_char(pv.as_slice(), '\\');
    ParsedPath { prefix, path_after_colon: after, has_no_colon: false, is_unc }
}

/// How file contents are hashed to compare copies.
#[derive(Debug, Clone, Copy)]
pub struct HashConfig {
    /// Files at or below this size are hashed whole.
    pub small_file_threshold: u64,
    /// Size of each sampled chunk of a larger file.
    pub sample_chunk_size: u64,
    /// Number of evenly spread samples of a larger file (0: beginning, middle and end).
    pub num_samples: u64,
}

impl HashConfig {
    /// Settings for conflict detection: whole files up to 1 MB, else 8 KB from the
    /// beginning, the middle and the end.
    pub fn conflict_detection() -> (r: HashConfig)
        ensures
            r.small_file_threshold == MB && r.sample_chunk_size == 8 * KB && r.num_samples == 0,
    {
        HashConfig { small_file_threshold: MB, sample_chunk_size: 8 * KB, num_samples: 0 }
    }

    /// Settings for copy and move conflict resolution: whole files up to 640 KB, else
    /// ten evenly spread samples of 64 KB.
    pub fn copy_resolution() -> (r: HashConfig)
        ensures
            r.small_file_threshold == 640 * KB && r.sample_chunk_size == 64 * KB && r.num_samples
                == 10,
    {
        HashConfig { small_file_threshold: 640 * KB, sample_chunk_size: 64 * KB, num_samples: 10 }
    }
}

/// `a * b`, or the greatest `u64` when the product does not fit.
pub open spec fn saturating_product(a: u64, b: u64) -> u64 {
    if a * b > u64::MAX {
        u64::MAX
    } else {
        (a * b) as u64
    }
}

/// Where the samples of a file of `size` bytes are read: with no sample count, at the
/// beginning, the middle and `chunk` bytes before the end (at 0 when the file is
/// shorter); else at `size * i / n` for each `i` below the count `n`, the product
/// saturating.
pub open spec fn sample_offsets(size: u64, config: HashConfig) -> Seq<u64> {
    if config.num_samples == 0 {
        seq![0u64, size / 2, if size >= config.sample_chunk_size { (size - config.sample_chunk_size) as u64 } else { 0u64 }]
    } else {
        Seq::new(
            config.num_samples as nat,
            |i: int| (saturating_product(size, i as u64) / config.num_samples) as u64,
        )
    }
}

/// How a file of `size` bytes is hashed: whole when it is at most the threshold
/// (`None`), else from chunks read at the returned offsets (see `sample_offsets`).
pub fn hash_plan(size: u64, config: &HashConfig) -> (r: Option<Vec<u64>>)
    ensures
        size <= config.small_file_threshold <==> r is None,
        r matches Some(v) ==> v@ == sample_offsets(size, *config),
{
    if size <= config.small_file_threshold {
        return None;
    }
    let mut out: Vec<u64> = Vec::new();
    if config.num_samples == 0 {
        out.push(0);
        out.push(size / 2);
        out.push(size.saturating_sub(config.sample_chunk_size));
        assert(out@ =~= sample_offsets(size, *config));
        return Some(out);
    }
    let n = config.num_samples;
    let mut i: u64 = 0;
    while i < n
        invariant
            i <= n,
            n == config.num_samples,
            n > 0,
            out@.len() == i,
            forall|k: int| 0 <= k < i ==> out@[k] == (saturating_product(size, k as u64) / n) as u64,
        decreases n - i,
    {
        let p = match size.checked_mul(i) {
            Some(v) => v,
            None => u64::MAX,
        };
        assert(p == saturating_product(size, i));
        out.push(p / n);
        i = i + 1;
    }
    assert(out@ =~= sample_offsets(size, *config));
    Some(out)
}

impl Default for HashConfig {
    /// The conflict-detection settings.
    fn default() -> (r: HashConfig)
        ensures
            r.small_file_threshold == MB && r.sample_chunk_size == 8 * KB && r.num_samples == 0,
    {
        HashConfig::conflict_detection()
    }
}

/// Whether `p` is qualified by the share `name`: `name` stands before its first colon,
/// and holds no path separator.
pub open spec fn names_share(p: Seq<char>, name: Seq<char>) -> bool {
    first_index(p, ':') < p.len() && !has_separator(p.subrange(0, first_index(p, ':') as int))
        && p.subrange(0, first_index(p, ':') as int) == name
}

/// What `Path::file_name` returns for a path: its last component, unless that is
/// `..` or there is none (the root, an empty path).
pub uninterp spec fn file_name_part(p: Seq<char>) -> Option<Seq<char>>;

/// `Path::file_name`, as text. Its result is named `file_name_part`.
#[verifier::external_body]
pub(crate) fn path_file_name(p: &str) -> (r: Option<String>)
    ensures
        opt_view(r) == file_name_part(p@),
{
    std::path::Path::new(p).file_name().map(|s| s.to_string_lossy().into_owned())
}

/// The last component of a path, or the whole path when it has none.
pub open spec fn reported_name(p: Seq<char>) -> Seq<char> {
    match file_name_part(p) {
        Some(n) => n,
        None => p,
    }
}

/// `size / unit` with one decimal, as `{:.1}` shows the binary64 quotient of
/// `size as f64` by `unit as f64` (see `double_tenths`).
pub open spec fn one_decimal(size: nat, unit: nat) -> Seq<char> {
    let t = double_tenths(size, unit);
    decimal(t / 10) + seq!['.', digit_char(t % 10)]
}

/// `size / unit` with one decimal, followed by `suffix` (see `one_decimal`), for a
/// size of at least one unit.
pub fn scaled_size(size: u64, unit: u64, suffix: &str) -> (r: String)
    requires
        1 <= unit < 0x20_0000_0000_0000,
        unit <= size,
        size as int <= unit as int * 0x10_0000_0000_0000,
    ensures
        r@ == one_decimal(size as nat, unit as nat) + suffix@,
{
    let t = quotient_tenths(size, unit);
    let whole = decimal_string(t / 10);
    let mut out = whole;
    push_char(&mut out, '.');
    push_char(&mut out, digit_of(t % 10));
    let res = join2(out.as_str(), suffix);
    assert(res@ =~= one_decimal(size as nat, unit as nat) + suffix@);
    res
}

/// How `format_size` shows a size: in the largest SI unit (`KB` = 1000 bytes up to
/// `PB`) that it reaches, with one decimal and a space before the unit; in bytes
/// below 1 KB.
pub open spec fn si_size_text(size: u64) -> Seq<char> {
    if size >= PB {
        one_decimal(size as nat, PB as nat) + " PB"@
    } else if size >= TB {
        one_decimal(size as nat, TB as nat) + " TB"@
    } else if size >= GB {
        one_decimal(size as nat, GB as nat) + " GB"@
    } else if size >= MB {
        one_decimal(size as nat, MB as nat) + " MB"@
    } else if size >= KB {
        one_decimal(size as nat, KB as nat) + " KB"@
    } else {
        decimal(size as nat) + " B"@
    }
}

/// A size in human-readable SI units (see `si_size_text`): `1500` is `1.5 KB`.
pub fn format_size(size: u64) -> (r: String)
    ensures
        r@ == si_size_text(size),
{
    if size >= PB {
        scaled_size(size, PB, " PB")
    } else if size >= TB {
        scaled_size(size, TB, " TB")
    } else if size >= GB {
        scaled_size(size, GB, " GB")
    } else if size >= MB {
        scaled_size(size, MB, " MB")
    } else if size >= KB {
        scaled_size(size, KB, " KB")
    } else {
        let d = decimal_string(size);
        join2(d.as_str(), " B")
    }
}

} // verus!
