//! Showing differences between branches: what is reported, and how a time is shown.
use crate::conflict::FileConflict;
use crate::error::join2;
use crate::output::{conflict_entries, conflict_entry, reports_copy, ConflictEntry};
use crate::text::{padded_decimal, padded_decimal_string};
use vstd::prelude::*;

verus! {

/// How a Unix time is shown: a rough date, counting 365-day years from 1970 and
/// showing the day of that year in place of the day of the month (the month is
/// always `01`), then the time of day, as `YYYY-01-DD HH:MM:SS UTC`.
pub open spec fn timestamp_text(secs: u64) -> Seq<char> {
    let days = secs / 86400;
    let rem = secs % 86400;
    padded_decimal((1970 + days / 365) as nat, 4) + "-"@ + padded_decimal(1, 2) + "-"@
        + padded_decimal((days % 365) as nat, 2) + " "@ + padded_decimal((rem / 3600) as nat, 2)
        + ":"@ + padded_decimal(((rem % 3600) / 60) as nat, 2) + ":"@ + padded_decimal(
        (rem % 60) as nat,
        2,
    ) + " UTC"@
}

/// A Unix time as it is shown (see `timestamp_text`).
pub fn format_timestamp(secs: u64) -> (r: String)
    ensures
        r@ == timestamp_text(secs),
{
    let days = secs / 86400;
    let rem = secs % 86400;
    let year = 1970 + days / 365;
    let s1 = join2(padded_decimal_string(year, 4).as_str(), "-");
    let s2 = join2(s1.as_str(), padded_decimal_string(1, 2).as_str());
    let s3 = join2(s2.as_str(), "-");
    let s4 = join2(s3.as_str(), padded_decimal_string(days % 365, 2).as_str());
    let s5 = join2(s4.as_str(), " ");
    let s6 = join2(s5.as_str(), padded_decimal_string(rem / 3600, 2).as_str());
    let s7 = join2(s6.as_str(), ":");
    let s8 = join2(s7.as_str(), padded_decimal_string((rem % 3600) / 60, 2).as_str());
    let s9 = join2(s8.as_str(), ":");
    let s10 = join2(s9.as_str(), padded_decimal_string(rem % 60, 2).as_str());
    join2(s10.as_str(), " UTC")
}

/// What `diff` reports of a folder.
#[derive(Debug, Clone)]
pub struct DiffOutput {
    /// The pool path.
    pub path: String,
    /// How many files conflict.
    pub conflict_count: usize,
    /// The conflicts, in order.
    pub conflicts: Vec<ConflictEntry>,
}

/// What `diff` reports of a single file.
#[derive(Debug, Clone)]
pub struct DiffFileOutput {
    /// The pool path.
    pub path: String,
    /// Whether its copies conflict.
    pub has_conflict: bool,
    /// The conflict, when there is one.
    pub conflict: Option<ConflictEntry>,
}

/// Whether an entry reports a conflict (see `conflict_entry`).
pub open spec fn reports_conflict(r: ConflictEntry, c: FileConflict) -> bool {
    &&& r.name@ == c.name@
    &&& r.branches@.len() == c.branches@.len()
    &&& forall|j: int| 0 <= j < r.branches@.len() ==> reports_copy(r.branches@[j], c.branches@[j])
}

/// The report of the conflicts found in a folder.
pub fn diff_output(path: &str, conflicts: &[FileConflict]) -> (r: DiffOutput)
    ensures
        r.path@ == path@,
        r.conflict_count == conflicts@.len(),
        r.conflicts@.len() == conflicts@.len(),
        forall|k: int| 0 <= k < r.conflicts@.len() ==> reports_conflict(r.conflicts@[k], conflicts@[k]),
{
    let entries = conflict_entries(conflicts);
    DiffOutput { path: String::from_str(path), conflict_count: conflicts.len(), conflicts: entries }
}

/// The report of a single file's conflict, if any.
pub fn diff_file_output(path: &str, conflict: &Option<FileConflict>) -> (r: DiffFileOutput)
    ensures
        r.path@ == path@,
        r.has_conflict == conflict.is_some(),
        match conflict {
            Some(c) => r.conflict matches Some(e) && reports_conflict(e, *c),
            None => r.conflict is None,
        },
{
    match conflict {
        Some(c) => DiffFileOutput {
            path: String::from_str(path),
            has_conflict: true,
            conflict: Some(conflict_entry(c)),
        },
        None => DiffFileOutput { path: String::from_str(path), has_conflict: false, conflict: None },
    }
}

} // verus!
