//! Move: a copy that removes its sources.
use crate::commands::cp::{
    folder_mode_named, parse_file_over_file, parse_folder_conflict_mode, strategy_error, strategy_of,
    unknown_folder_mode_text, CopyConfig, SizeFilter,
};
use crate::error::NofsError;
use crate::pool::Pool;
use crate::text::lower_text;
use vstd::prelude::*;

verus! {

/// How a move runs.
pub struct MoveConfig<'a> {
    /// Paths to move.
    pub sources: &'a [String],
    /// Where to move them.
    pub destination: &'a str,
    /// File-over-file strategy, as written (see `parse_file_over_file`).
    pub file_over_file: &'a str,
    /// File-over-folder mode, as written.
    pub file_over_folder: &'a str,
    /// Folder-over-file mode, as written.
    pub folder_over_file: &'a str,
    /// Only report what would be done.
    pub simulate: bool,
    /// Number of parallel workers.
    pub workers: usize,
    /// Report each step.
    pub verbose: bool,
    /// Extensions taken (all when empty).
    pub extensions: Vec<String>,
    /// Glob patterns of names left out.
    pub exclude: Vec<String>,
    /// Glob patterns of names taken (all when empty).
    pub include_patterns: Vec<String>,
    /// Most files moved.
    pub limit: Option<u64>,
    /// Most bytes moved.
    pub size_limit: Option<u64>,
    /// Bounds on each file's size.
    pub size: Option<SizeFilter>,
    /// The share the paths are resolved in, if any.
    pub share: Option<&'a Pool>,
}

/// A copy of the strings.
fn copy_strings(v: &Vec<String>) -> (r: Vec<String>)
    ensures
        r@.len() == v@.len(),
        forall|i: int| 0 <= i < v@.len() ==> (#[trigger] r@[i])@ == v@[i]@,
{
    let mut out: Vec<String> = Vec::new();
    let mut i: usize = 0;
    while i < v.len()
        invariant
            i <= v@.len(),
            out@.len() == i,
            forall|j: int| 0 <= j < i ==> (#[trigger] out@[j])@ == v@[j]@,
        decreases v.len() - i,
    {
        out.push(String::from_str(v[i].as_str()));
        i = i + 1;
    }
    out
}

/// The same strings.
pub open spec fn same_strings(a: Seq<String>, b: Seq<String>) -> bool {
    a.len() == b.len() && forall|i: int| 0 <= i < a.len() ==> (#[trigger] a[i])@ == b[i]@
}

/// The error of the first of the three conflict settings that does not parse, in the
/// order file-over-file, file-over-folder, folder-over-file.
pub open spec fn move_config_error(
    file_over_file: Seq<char>,
    file_over_folder: Seq<char>,
    folder_over_file: Seq<char>,
) -> Seq<char> {
    if strategy_of(file_over_file) is None {
        strategy_error(file_over_file)
    } else if folder_mode_named(lower_text(file_over_folder)) is None {
        unknown_folder_mode_text(file_over_folder)
    } else {
        unknown_folder_mode_text(folder_over_file)
    }
}

impl<'a> MoveConfig<'a> {
    /// The copy configuration a move runs with: a copy that removes its sources, with
    /// the move's settings and its three conflict modes parsed (the first that does
    /// not parse is a `Parse` error).
    pub fn copy_config(&self) -> (r: Result<CopyConfig, NofsError>)
        ensures
            match r {
                Ok(c) => !c.is_copy && c.dry_run == self.simulate && c.workers == self.workers
                    && c.verbose == self.verbose && strategy_of(self.file_over_file@) == Some(
                    (c.file_over_file.rules@, c.file_over_file.required),
                ) && folder_mode_named(lower_text(self.file_over_folder@)) == Some(
                    c.file_over_folder,
                ) && folder_mode_named(lower_text(self.folder_over_file@)) == Some(
                    c.folder_over_file,
                ) && same_strings(c.extensions@, self.extensions@) && same_strings(
                    c.exclude@,
                    self.exclude@,
                ) && same_strings(c.include_patterns@, self.include_patterns@) && c.limit
                    == self.limit && c.size_limit == self.size_limit && c.size == self.size,
                Err(e) => e matches NofsError::Parse(m) && m@ == move_config_error(
                    self.file_over_file@,
                    self.file_over_folder@,
                    self.folder_over_file@,
                ) && (strategy_of(self.file_over_file@) is None || folder_mode_named(
                    lower_text(self.file_over_folder@),
                ) is None || folder_mode_named(lower_text(self.folder_over_file@)) is None),
            },
            strategy_of(self.file_over_file@) is Some && folder_mode_named(
                lower_text(self.file_over_folder@),
            ) is Some && folder_mode_named(lower_text(self.folder_over_file@)) is Some ==> r is Ok,
    {
        let file_over_file = match parse_file_over_file(self.file_over_file) {
            Ok(s) => s,
            Err(e) => return Err(e),
        };
        let file_over_folder = match parse_folder_conflict_mode(self.file_over_folder) {
            Ok(m) => m,
            Err(e) => return Err(e),
        };
        let folder_over_file = match parse_folder_conflict_mode(self.folder_over_file) {
            Ok(m) => m,
            Err(e) => return Err(e),
        };
        Ok(
            CopyConfig {
                is_copy: false,
                dry_run: self.simulate,
                workers: self.workers,
                verbose: self.verbose,
                file_over_file,
                file_over_folder,
                folder_over_file,
                extensions: copy_strings(&self.extensions),
                exclude: copy_strings(&self.exclude),
                include_patterns: copy_strings(&self.include_patterns),
                limit: self.limit,
                size_limit: self.size_limit,
                size: self.size,
            },
        )
    }
}

} // verus!
