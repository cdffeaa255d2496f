//! What the commands report in JSON mode, as plain records.
use crate::conflict::{BranchConflict, FileConflict};
use vstd::prelude::*;

verus! {

/// One entry of an `ls` listing.
#[derive(Debug, Clone)]
pub struct LsEntry {
    /// The entry's name.
    pub name: String,
    /// `file` or `directory`.
    pub entry_type: String,
    /// Size in bytes, in long listings.
    pub size: Option<u64>,
    /// Permission text, in long listings.
    pub permissions: Option<String>,
}

/// An `ls` listing of one path.
#[derive(Debug, Clone)]
pub struct LsOutput {
    /// The pool path listed.
    pub path: String,
    /// Its entries, one per name.
    pub entries: Vec<LsEntry>,
    /// The conflicts found, when asked.
    pub conflicts: Vec<ConflictEntry>,
}

/// What `find` found under one path.
#[derive(Debug, Clone)]
pub struct FindOutput {
    /// The pool path searched.
    pub path: String,
    /// The paths found, relative to it, each once.
    pub files: Vec<String>,
}

/// Where `which` found a path.
#[derive(Debug, Clone)]
pub struct WhichOutput {
    /// The pool path looked up.
    pub path: String,
    /// Its full paths on the branches.
    pub locations: Vec<String>,
    /// Its conflict, when asked and found.
    pub conflict: Option<ConflictEntry>,
}

/// Whether `exists` found a path, and where.
#[derive(Debug, Clone)]
pub struct ExistsOutput {
    /// Whether it exists.
    pub exists: bool,
    /// Its first full path, when it exists.
    pub path: Option<String>,
}

/// One copy of a conflicting file.
#[derive(Debug, Clone)]
pub struct ConflictBranch {
    /// Full path of the copy.
    pub path: String,
    /// Size in bytes.
    pub size: u64,
    /// Modification time, when known.
    pub mtime: Option<u64>,
    /// Creation time, when known.
    pub ctime: Option<u64>,
}

/// A conflicting file and its copies.
#[derive(Debug, Clone)]
pub struct ConflictEntry {
    /// Name of the file.
    pub name: String,
    /// Its copies, in the conflict's order.
    pub branches: Vec<ConflictBranch>,
}

/// An error, as JSON output reports it.
#[derive(Debug, Clone)]
pub struct ErrorOutput {
    /// The error's text.
    pub error: String,
}

/// Whether a reported copy describes the copy.
pub open spec fn reports_copy(r: ConflictBranch, c: BranchConflict) -> bool {
    r.path@ == c.path@ && r.size == c.size && r.mtime == c.mtime && r.ctime == c.ctime
}

/// The report of a conflict: its name, and each copy's path, size and times, in order.
pub fn conflict_entry(c: &FileConflict) -> (r: ConflictEntry)
    ensures
        r.name@ == c.name@,
        r.branches@.len() == c.branches@.len(),
        forall|k: int| 0 <= k < r.branches@.len() ==> reports_copy(r.branches@[k], c.branches@[k]),
{
    let mut out: Vec<ConflictBranch> = Vec::new();
    let mut k: usize = 0;
    while k < c.branches.len()
        invariant
            k <= c.branches@.len(),
            out@.len() == k,
            forall|j: int| 0 <= j < k ==> reports_copy(out@[j], c.branches@[j]),
        decreases c.branches.len() - k,
    {
        let b = &c.branches[k];
        out.push(
            ConflictBranch {
                path: String::from_str(b.path.as_str()),
                size: b.size,
                mtime: b.mtime,
                ctime: b.ctime,
            },
        );
        k = k + 1;
    }
    ConflictEntry { name: String::from_str(c.name.as_str()), branches: out }
}

/// The reports of the conflicts, in order (see `conflict_entry`).
pub fn conflict_entries(cs: &[FileConflict]) -> (r: Vec<ConflictEntry>)
    ensures
        r@.len() == cs@.len(),
        forall|k: int|
            0 <= k < r@.len() ==> r@[k].name@ == cs@[k].name@ && r@[k].branches@.len()
                == cs@[k].branches@.len() && forall|j: int|
                0 <= j < r@[k].branches@.len() ==> reports_copy(
                    r@[k].branches@[j],
                    cs@[k].branches@[j],
                ),
{
    let mut out: Vec<ConflictEntry> = Vec::new();
    let mut k: usize = 0;
    while k < cs.len()
        invariant
            k <= cs@.len(),
            out@.len() == k,
            forall|i: int|
                0 <= i < k ==> out@[i].name@ == cs@[i].name@ && out@[i].branches@.len()
                    == cs@[i].branches@.len() && forall|j: int|
                    0 <= j < out@[i].branches@.len() ==> reports_copy(
                        out@[i].branches@[j],
                        cs@[i].branches@[j],
                    ),
        decreases cs.len() - k,
    {
        out.push(conflict_entry(&cs[k]));
        k = k + 1;
    }
    out
}

} // verus!
