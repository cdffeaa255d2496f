//! Branches: the directories that together make up a share.
use crate::error::{join2, join3, NofsError};
use crate::text::{
    is_upper_or_digit, char_is_ws, chars_eq, chars_range, find_char, first_index, is_numeric, lemma_first_index_bound,
    numeric_char, split, split_chars, string_of, string_of_range, to_chars, to_uppercase, trim,
    trim_chars, upper_text, views,
};
use vstd::prelude::*;

verus! {

/// How a branch takes part in the pool.
#[derive(Debug, Clone, Copy, PartialEq, Eq, Structural)]
pub enum BranchMode {
    /// Read/write: takes part in every operation.
    RW,
    /// Read-only: never chosen to create or to act on a file.
    RO,
    /// No-create: read and modified, but never chosen to create.
    NC,
}

/// The name of a mode, as it is written and shown.
pub open spec fn mode_name(m: BranchMode) -> Seq<char> {
    match m {
        BranchMode::RW => "RW"@,
        BranchMode::RO => "RO"@,
        BranchMode::NC => "NC"@,
    }
}

/// The mode whose name is exactly `u`, if any.
pub open spec fn mode_named(u: Seq<char>) -> Option<BranchMode> {
    if u == "RW"@ {
        Some(BranchMode::RW)
    } else if u == "RO"@ {
        Some(BranchMode::RO)
    } else if u == "NC"@ {
        Some(BranchMode::NC)
    } else {
        None
    }
}

/// Every mode's name is written in upper_text letters, and names that mode: so
/// `BranchMode::from_str(&m.to_string())` is `Ok(m)` for every mode `m`.
pub proof fn lemma_mode_name_roundtrip(m: BranchMode)
    ensures
        mode_named(mode_name(m)) == Some(m),
        forall|i: int| 0 <= i < mode_name(m).len() ==> is_upper_or_digit(#[trigger] mode_name(m)[i]),
{
    reveal_strlit("RW");
    reveal_strlit("RO");
    reveal_strlit("NC");
    assert("RO"@[1] != "RW"@[1]);
    assert("NC"@[0] != "RW"@[0]);
    assert("NC"@[0] != "RO"@[0]);
}

impl Default for BranchMode {
    fn default() -> (r: Self)
        ensures
            r == BranchMode::RW,
    {
        BranchMode::RW
    }
}

impl BranchMode {
    /// The mode whose name is exactly the given (already upper-cased) text.
    pub fn from_upper_name(u: &[char]) -> (r: Option<BranchMode>)
        ensures
            r == mode_named(u@),
    {
        if chars_eq(u, "RW") {
            Some(BranchMode::RW)
        } else if chars_eq(u, "RO") {
            Some(BranchMode::RO)
        } else if chars_eq(u, "NC") {
            Some(BranchMode::NC)
        } else {
            None
        }
    }

    /// Parses a mode name, ignoring case: the upper-cased text must be `RW`, `RO` or `NC`.
    pub fn from_str(s: &str) -> (r: Result<BranchMode, NofsError>)
        ensures
            match r {
                Ok(m) => mode_named(upper_text(s@)) == Some(m),
                Err(e) => mode_named(upper_text(s@)) is None && e is Parse,
            },
            (forall|i: int| 0 <= i < s@.len() ==> is_upper_or_digit(#[trigger] s@[i])) ==> match r {
                Ok(m) => mode_named(s@) == Some(m),
                Err(_) => mode_named(s@) is None,
            },
    {
        let upper = to_uppercase(s);
        let chars = to_chars(upper.as_str());
        match BranchMode::from_upper_name(chars.as_slice()) {
            Some(m) => Ok(m),
            None => Err(NofsError::Parse(join2("Unknown branch mode: ", s))),
        }
    }

    /// The name of the mode.
    pub fn to_string(&self) -> (r: String)
        ensures
            r@ == mode_name(*self),
            forall|i: int| 0 <= i < r@.len() ==> is_upper_or_digit(#[trigger] r@[i]),
    {
        proof {
            lemma_mode_name_roundtrip(*self);
        }
        match self {
            BranchMode::RW => String::from_str("RW"),
            BranchMode::RO => String::from_str("RO"),
            BranchMode::NC => String::from_str("NC"),
        }
    }
}

/// One branch of a pool.
#[derive(Debug, Clone)]
pub struct Branch {
    /// Path of the branch directory.
    pub path: String,
    /// How the branch takes part in the pool.
    pub mode: BranchMode,
    /// Minimum free space for this branch, overriding the pool's, as written.
    pub minfreespace: Option<String>,
}

/// An optional string seen as an optional sequence of characters.
pub open spec fn opt_view(o: Option<String>) -> Option<Seq<char>> {
    match o {
        Some(s) => Some(s@),
        None => None,
    }
}

/// Mode and per-branch minimum free space, as the options of a branch specification set them.
pub type BranchOptions = (BranchMode, Option<Seq<char>>);

/// One option of a branch specification applied to what the options before it set:
/// a mode name (any case) sets the mode; otherwise a text holding a numeric
/// character is the minimum free space; anything else is refused.
pub open spec fn apply_option(acc: BranchOptions, raw: Seq<char>) -> Option<BranchOptions> {
    let opt = trim(raw);
    match mode_named(upper_text(opt)) {
        Some(m) => Some((m, acc.1)),
        None => if exists|i: int| 0 <= i < opt.len() && numeric_char(#[trigger] opt[i]) {
            Some((acc.0, Some(opt)))
        } else {
            None
        },
    }
}

/// The options applied from left to right; `None` once one is refused.
pub open spec fn apply_options(acc: BranchOptions, opts: Seq<Seq<char>>) -> Option<BranchOptions>
    decreases opts.len(),
{
    if opts.len() == 0 {
        Some(acc)
    } else {
        match apply_option(acc, opts[0]) {
            Some(a) => apply_options(a, opts.subrange(1, opts.len() as int)),
            None => None,
        }
    }
}

/// The path part of a branch specification: everything before the first `=`.
pub open spec fn spec_path(s: Seq<char>) -> Seq<char> {
    s.subrange(0, first_index(s, '=') as int)
}

/// What the options of a branch specification set: `(RW, None)` when it has no `=`,
/// else the comma-separated options after the first `=` applied in turn.
pub open spec fn spec_options(s: Seq<char>) -> Option<BranchOptions> {
    let i = first_index(s, '=');
    if i >= s.len() {
        Some((BranchMode::RW, None))
    } else {
        apply_options((BranchMode::RW, None), split(s.subrange(i as int + 1, s.len() as int), ','))
    }
}

/// `Path::exists` on the given path. What it answers depends on the disk,
/// so nothing is stated of it.
#[verifier::external_body]
pub(crate) fn path_exists(p: &str) -> bool {
    std::path::Path::new(p).exists()
}

/// The error text for a branch whose path does not exist.
pub open spec fn missing_branch_text(path: Seq<char>) -> Seq<char> {
    "Branch path does not exist: "@ + path
}

/// Declares `std::io::Error`, the error of the filesystem queries.
#[verifier::external_type_specification]
#[verifier::external_body]
pub struct ExIoError(std::io::Error);

/// `fs4::available_space`: the bytes available to unprivileged users on the
/// filesystem that holds the path. It reads the disk, so nothing is stated of it.
#[verifier::external_body]
pub(crate) fn fs_available_space(p: &str) -> Result<u64, std::io::Error> {
    fs4::available_space(p)
}

/// `fs4::total_space`: the size in bytes of the filesystem that holds the path.
/// It reads the disk, so nothing is stated of it.
#[verifier::external_body]
pub(crate) fn fs_total_space(p: &str) -> Result<u64, std::io::Error> {
    fs4::total_space(p)
}

/// The text of an I/O error (its `Display`), which is not restated here.
#[verifier::external_body]
pub(crate) fn io_error_text(e: &std::io::Error) -> String {
    e.to_string()
}

/// Applies one option (see `apply_option`).
fn parse_one_option(acc: (BranchMode, Option<String>), raw: &[char]) -> (r: Result<
    (BranchMode, Option<String>),
    NofsError,
>)
    ensures
        match r {
            Ok(a) => apply_option((acc.0, opt_view(acc.1)), raw@) == Some((a.0, opt_view(a.1))),
            Err(e) => apply_option((acc.0, opt_view(acc.1)), raw@) is None && e is Branch,
        },
{
    let opt = trim_chars(raw);
    let opt_str = string_of(opt.as_slice());
    let upper = to_uppercase(opt_str.as_str());
    let upper_chars = to_chars(upper.as_str());
    match BranchMode::from_upper_name(upper_chars.as_slice()) {
        Some(m) => Ok((m, acc.1)),
        None => {
            let mut i: usize = 0;
            let mut found = false;
            while i < opt.len()
                invariant
                    i <= opt.len(),
                    found ==> exists|j: int| 0 <= j < opt@.len() && numeric_char(#[trigger] opt@[j]),
                    !found ==> forall|j: int| 0 <= j < i ==> !numeric_char(#[trigger] opt@[j]),
                decreases opt.len() - i,
            {
                if !found && is_numeric(opt[i]) {
                    found = true;
                }
                i = i + 1;
            }
            if found {
                Ok((acc.0, Some(opt_str)))
            } else {
                Err(
                    NofsError::Branch(
                        join3(
                            "Invalid branch option: '",
                            opt_str.as_str(),
                            "'. Expected RW/RO/NC or a size value (e.g., 4G)",
                        ),
                    ),
                )
            }
        },
    }
}

/// Applies the comma-separated options in turn (see `spec_options`).
fn parse_options(opts: &[char]) -> (r: Result<(BranchMode, Option<String>), NofsError>)
    ensures
        match r {
            Ok(a) => apply_options((BranchMode::RW, None), split(opts@, ',')) == Some(
                (a.0, opt_view(a.1)),
            ),
            Err(e) => apply_options((BranchMode::RW, None), split(opts@, ',')) is None
                && e is Branch,
        },
{
    let pieces = split_chars(opts, ',');
    let ghost all = split(opts@, ',');
    let mut acc: (BranchMode, Option<String>) = (BranchMode::RW, None);
    let mut k: usize = 0;
    assert(all.subrange(0, all.len() as int) =~= all);
    while k < pieces.len()
        invariant
            k <= pieces.len(),
            views(pieces@) == all,
            all == split(opts@, ','),
            apply_options((BranchMode::RW, None), all) == apply_options(
                (acc.0, opt_view(acc.1)),
                all.subrange(k as int, all.len() as int),
            ),
        decreases pieces.len() - k,
    {
        let ghost rest = all.subrange(k as int, all.len() as int);
        assert(views(pieces@).len() == pieces@.len());
        assert(pieces@[k as int]@ == rest[0]);
        let step = parse_one_option(acc, pieces[k].as_slice());
        match step {
            Ok(a) => {
                assert(rest.subrange(1, rest.len() as int) =~= all.subrange(
                    k + 1,
                    all.len() as int,
                ));
                acc = a;
            },
            Err(e) => {
                assert(rest.len() > 0);
                assert(apply_options((acc.0, opt_view(acc.1)), rest) is None);
                return Err(e);
            },
        }
        k = k + 1;
    }
    assert(all.subrange(k as int, all.len() as int) =~= Seq::<Seq<char>>::empty());
    Ok(acc)
}

impl Branch {
    /// The path part of a branch specification (everything before the first `=`).
    pub fn path_of_spec(s: &str) -> (r: String)
        ensures
            r@ == spec_path(s@),
    {
        let v = to_chars(s);
        let i = find_char(v.as_slice(), '=');
        proof {
            lemma_first_index_bound(v@, '=');
        }
        string_of_range(v.as_slice(), 0, i)
    }

    /// Builds a branch from its specification `path`, `path=OPTIONS` (options separated
    /// by commas: a mode `RW`/`RO`/`NC` in any case, or a minimum free space such as
    /// `4G`), given whether the path exists. A missing path is refused before the
    /// options are read.
    pub fn parse_with_existence(s: &str, exists: bool) -> (r: Result<Branch, NofsError>)
        ensures
            r is Ok <==> exists && spec_options(s@) is Some,
            !exists ==> (r matches Err(NofsError::Branch(m)) && m@ == missing_branch_text(
                spec_path(s@),
            )),
            match r {
                Ok(b) => b.path@ == spec_path(s@) && spec_options(s@) == Some(
                    (b.mode, opt_view(b.minfreespace)),
                ),
                Err(e) => e is Branch,
            },
    {
        let v = to_chars(s);
        let i = find_char(v.as_slice(), '=');
        proof {
            lemma_first_index_bound(v@, '=');
        }
        let path = string_of_range(v.as_slice(), 0, i);
        if !exists {
            return Err(NofsError::Branch(join2("Branch path does not exist: ", path.as_str())));
        }
        if i >= v.len() {
            return Ok(Branch { path, mode: BranchMode::RW, minfreespace: None });
        }
        let opts = chars_range(v.as_slice(), i + 1, v.len());
        match parse_options(opts.as_slice()) {
            Ok((mode, minfreespace)) => Ok(Branch { path, mode, minfreespace }),
            Err(e) => Err(e),
        }
    }

    /// Builds a branch from its specification (see `parse_with_existence`), asking
    /// the filesystem whether its path exists.
    pub fn parse(s: &str) -> (r: Result<Branch, NofsError>)
        ensures
            spec_options(s@) is None ==> r is Err,
            spec_options(s@) is Some ==> (r matches Err(NofsError::Branch(m)) ==> m@
                == missing_branch_text(spec_path(s@))),
            match r {
                Ok(b) => b.path@ == spec_path(s@) && spec_options(s@) == Some(
                    (b.mode, opt_view(b.minfreespace)),
                ),
                Err(e) => e is Branch,
            },
    {
        let path = Branch::path_of_spec(s);
        let exists = path_exists(path.as_str());
        Branch::parse_with_existence(s, exists)
    }

    /// Whether new files may be created on this branch (only `RW` branches).
    pub fn can_create(&self) -> (r: bool)
        ensures
            r == (self.mode == BranchMode::RW),
    {
        self.mode == BranchMode::RW
    }

    /// Whether existing files may be acted upon on this branch (only `RW` branches).
    pub fn can_action(&self) -> (r: bool)
        ensures
            r == (self.mode == BranchMode::RW),
    {
        self.mode == BranchMode::RW
    }

    /// Bytes available on the branch's filesystem. A failed read is a `Branch` error
    /// whose text starts with `Failed to get available space: `.
    pub fn available_space(&self) -> (r: Result<u64, NofsError>)
        ensures
            r matches Err(e) ==> e matches NofsError::Branch(m) && "Failed to get available space: "@.is_prefix_of(m@),
    {
        match fs_available_space(self.path.as_str()) {
            Ok(v) => Ok(v),
            Err(e) => {
                let prefix = "Failed to get available space: ";
                let msg = join2(prefix, io_error_text(&e).as_str());
                assert(msg@.subrange(0, prefix@.len() as int) =~= prefix@);
                Err(NofsError::Branch(msg))
            },
        }
    }

    /// Size in bytes of the branch's filesystem. A failed read is a `Branch` error whose
    /// text starts with `Failed to get total space: `.
    pub fn total_space(&self) -> (r: Result<u64, NofsError>)
        ensures
            r matches Err(e) ==> e matches NofsError::Branch(m) && "Failed to get total space: "@.is_prefix_of(m@),
    {
        match fs_total_space(self.path.as_str()) {
            Ok(v) => Ok(v),
            Err(e) => {
                let prefix = "Failed to get total space: ";
                let msg = join2(prefix, io_error_text(&e).as_str());
                assert(msg@.subrange(0, prefix@.len() as int) =~= prefix@);
                Err(NofsError::Branch(msg))
            },
        }
    }

    /// Bytes in use on the branch's filesystem: total less available, never below zero.
    /// The total is read first; the error of the first read that fails is passed on.
    pub fn used_space(&self) -> (r: Result<u64, NofsError>)
        ensures
            r matches Err(e) ==> e matches NofsError::Branch(m) && ("Failed to get total space: "@.is_prefix_of(m@) || "Failed to get available space: "@.is_prefix_of(m@)),
    {
        let total = match self.total_space() {
            Ok(t) => t,
            Err(e) => return Err(e),
        };
        let available = match self.available_space() {
            Ok(a) => a,
            Err(e) => return Err(e),
        };
        Ok(used_of(total, available))
    }
}

/// Bytes in use given the total and available bytes: their difference, never below zero.
pub fn used_of(total: u64, available: u64) -> (r: u64)
    ensures
        r == if total >= available { total - available } else { 0 },
{
    if total >= available {
        total - available
    } else {
        0
    }
}

} // verus!
