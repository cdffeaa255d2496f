//! Copy and move, step by step: where a path given to `cp` or `mv` leads, what is done
//! with the destination before the sources are taken, and how each clash between a
//! source and an existing destination is settled.
use crate::commands::cp::{
    first_match, first_matching_rule, rule_reason, FileComparison, FileOverFileMode,
    FileOverFileStrategy, FolderConflictMode, RuleAction,
};
use crate::branch::BranchMode;
use crate::error::{error_text, join2, join3, NofsError};
use crate::policy::{exists_under, join_path, path_join};
use crate::pool::Pool;
use crate::text::first_index;
use crate::utils::{has_separator, parse_path_with_context, path_file_name, reported_name};
use vstd::prelude::*;

verus! {

/// What happens to a source file that meets an existing destination.
#[derive(Debug, Clone, Copy, PartialEq, Eq, Structural)]
pub enum FileStep {
    /// Leave both as they are.
    Skip,
    /// Remove the source and leave the destination.
    DeleteSource,
    /// Remove the destination, then transfer the source to its place.
    ReplaceDestination,
    /// Transfer the source to a fresh `_N` name beside the destination.
    TransferRenamed,
    /// Move the destination aside to a fresh `_N` name, then transfer the source to its
    /// place.
    MoveDestinationAside,
    /// Transfer the source into the destination folder, under its own name.
    TransferInto,
}

/// The step chosen for a clash, the reason shown for it, and whether the source counts
/// as skipped.
#[derive(Debug, Clone)]
pub struct FilePlan {
    /// What is done.
    pub step: FileStep,
    /// Why, as verbose output names it.
    pub reason: String,
    /// Whether the source is counted among the skipped files.
    pub counts_skipped: bool,
}

/// The step a matching rule's action takes.
pub open spec fn step_of_action(a: RuleAction) -> FileStep {
    match a {
        RuleAction::Skip => FileStep::Skip,
        RuleAction::DeleteSrc => FileStep::DeleteSource,
        RuleAction::DeleteDest => FileStep::ReplaceDestination,
    }
}

/// The step a file-over-file mode takes when no rule matched.
pub open spec fn step_of_file_mode(m: FileOverFileMode) -> FileStep {
    match m {
        FileOverFileMode::Skip => FileStep::Skip,
        FileOverFileMode::RenameSrc => FileStep::TransferRenamed,
        FileOverFileMode::RenameDest => FileStep::MoveDestinationAside,
        FileOverFileMode::DeleteSrc => FileStep::DeleteSource,
        FileOverFileMode::DeleteDest => FileStep::ReplaceDestination,
    }
}

/// The reason shown for a file-over-file mode.
pub open spec fn file_mode_reason(m: FileOverFileMode) -> Seq<char> {
    match m {
        FileOverFileMode::Skip => "strategy: skip"@,
        FileOverFileMode::RenameSrc => "strategy: rename-src"@,
        FileOverFileMode::RenameDest => "strategy: rename-dest"@,
        FileOverFileMode::DeleteSrc => "strategy: delete-src"@,
        FileOverFileMode::DeleteDest => "strategy: delete-dest"@,
    }
}

/// Between two files, the steps that leave the source untransferred count it as skipped.
pub open spec fn counted_as_skipped(s: FileStep) -> bool {
    s == FileStep::Skip || s == FileStep::DeleteSource
}

fn file_mode_plan(m: FileOverFileMode) -> (r: FilePlan)
    ensures
        r.step == step_of_file_mode(m),
        r.reason@ == file_mode_reason(m),
        r.counts_skipped == counted_as_skipped(r.step),
{
    match m {
        FileOverFileMode::Skip => FilePlan {
            step: FileStep::Skip,
            reason: String::from_str("strategy: skip"),
            counts_skipped: true,
        },
        FileOverFileMode::RenameSrc => FilePlan {
            step: FileStep::TransferRenamed,
            reason: String::from_str("strategy: rename-src"),
            counts_skipped: false,
        },
        FileOverFileMode::RenameDest => FilePlan {
            step: FileStep::MoveDestinationAside,
            reason: String::from_str("strategy: rename-dest"),
            counts_skipped: false,
        },
        FileOverFileMode::DeleteSrc => FilePlan {
            step: FileStep::DeleteSource,
            reason: String::from_str("strategy: delete-src"),
            counts_skipped: true,
        },
        FileOverFileMode::DeleteDest => FilePlan {
            step: FileStep::ReplaceDestination,
            reason: String::from_str("strategy: delete-dest"),
            counts_skipped: false,
        },
    }
}

/// How a file copied onto an existing file is handled: the first rule of the strategy
/// whose condition holds decides, with its own reason; when none holds, the strategy's
/// required mode does.
pub fn file_over_file_plan(strategy: &FileOverFileStrategy, facts: &FileComparison) -> (r:
    FilePlan)
    ensures
        match first_match(strategy.rules@, *facts) {
            Some(i) => r.step == step_of_action(strategy.rules@[i].action) && r.reason@
                == rule_reason(strategy.rules@[i]),
            None => r.step == step_of_file_mode(strategy.required) && r.reason@
                == file_mode_reason(strategy.required),
        },
        r.counts_skipped == counted_as_skipped(r.step),
{
    match first_matching_rule(strategy.rules.as_slice(), facts) {
        Some(i) => {
            let rule = strategy.rules[i];
            let reason = rule.display();
            match rule.action {
                RuleAction::Skip => FilePlan { step: FileStep::Skip, reason, counts_skipped: true },
                RuleAction::DeleteSrc => FilePlan {
                    step: FileStep::DeleteSource,
                    reason,
                    counts_skipped: true,
                },
                RuleAction::DeleteDest => FilePlan {
                    step: FileStep::ReplaceDestination,
                    reason,
                    counts_skipped: false,
                },
            }
        },
        None => file_mode_plan(strategy.required),
    }
}

/// The step a file-over-folder mode takes.
pub open spec fn step_of_folder_mode(m: FolderConflictMode) -> FileStep {
    match m {
        FolderConflictMode::Skip => FileStep::Skip,
        FolderConflictMode::RenameSrc => FileStep::TransferRenamed,
        FolderConflictMode::RenameDest => FileStep::MoveDestinationAside,
        FolderConflictMode::DeleteSrc => FileStep::DeleteSource,
        FolderConflictMode::DeleteDest => FileStep::ReplaceDestination,
        FolderConflictMode::Merge => FileStep::TransferInto,
    }
}

/// The reason shown for a folder conflict mode.
pub open spec fn folder_mode_reason(m: FolderConflictMode) -> Seq<char> {
    match m {
        FolderConflictMode::Skip => "strategy: skip"@,
        FolderConflictMode::RenameSrc => "strategy: rename-src"@,
        FolderConflictMode::RenameDest => "strategy: rename-dest"@,
        FolderConflictMode::DeleteSrc => "strategy: delete-src"@,
        FolderConflictMode::DeleteDest => "strategy: delete-dest"@,
        FolderConflictMode::Merge => "strategy: merge"@,
    }
}

/// How a file copied onto an existing folder is handled, by the mode alone; the source
/// never counts as skipped here.
pub fn file_over_folder_plan(mode: FolderConflictMode) -> (r: FilePlan)
    ensures
        r.step == step_of_folder_mode(mode),
        r.reason@ == folder_mode_reason(mode),
        !r.counts_skipped,
{
    let (step, reason) = match mode {
        FolderConflictMode::Skip => (FileStep::Skip, "strategy: skip"),
        FolderConflictMode::RenameSrc => (FileStep::TransferRenamed, "strategy: rename-src"),
        FolderConflictMode::RenameDest => (FileStep::MoveDestinationAside, "strategy: rename-dest"),
        FolderConflictMode::DeleteSrc => (FileStep::DeleteSource, "strategy: delete-src"),
        FolderConflictMode::DeleteDest => (FileStep::ReplaceDestination, "strategy: delete-dest"),
        FolderConflictMode::Merge => (FileStep::TransferInto, "strategy: merge"),
    };
    FilePlan { step, reason: String::from_str(reason), counts_skipped: false }
}

/// What happens to a source folder that meets an existing file.
#[derive(Debug, Clone, Copy, PartialEq, Eq, Structural)]
pub enum FolderStep {
    /// Leave both as they are.
    Skip,
    /// Remove the source folder.
    DeleteSource,
    /// Remove the file, create the folder in its place and take the contents there.
    ReplaceDestination,
    /// Create a folder with a fresh `_N` name beside the file and take the contents there.
    IntoRenamedFolder,
    /// Move the file aside to a fresh `_N` name, create the folder in its place and take
    /// the contents there.
    MoveDestinationAside,
}

/// The step a folder-over-file mode takes: `Merge` keeps both, as `RenameDest` does.
pub open spec fn folder_step_of(m: FolderConflictMode) -> FolderStep {
    match m {
        FolderConflictMode::Skip => FolderStep::Skip,
        FolderConflictMode::DeleteSrc => FolderStep::DeleteSource,
        FolderConflictMode::DeleteDest => FolderStep::ReplaceDestination,
        FolderConflictMode::RenameSrc => FolderStep::IntoRenamedFolder,
        FolderConflictMode::RenameDest => FolderStep::MoveDestinationAside,
        FolderConflictMode::Merge => FolderStep::MoveDestinationAside,
    }
}

/// How a folder copied onto an existing file is handled (see `folder_step_of`).
pub fn folder_over_file_step(mode: FolderConflictMode) -> (r: FolderStep)
    ensures
        r == folder_step_of(mode),
{
    match mode {
        FolderConflictMode::Skip => FolderStep::Skip,
        FolderConflictMode::DeleteSrc => FolderStep::DeleteSource,
        FolderConflictMode::DeleteDest => FolderStep::ReplaceDestination,
        FolderConflictMode::RenameSrc => FolderStep::IntoRenamedFolder,
        FolderConflictMode::RenameDest => FolderStep::MoveDestinationAside,
        FolderConflictMode::Merge => FolderStep::MoveDestinationAside,
    }
}

/// A copy or move needs at least one source.
pub fn require_sources(count: usize) -> (r: Result<(), NofsError>)
    ensures
        count > 0 <==> r is Ok,
        count == 0 ==> (r matches Err(NofsError::CopyMove(m)) && m@
            == "At least one source is required"@),
{
    if count == 0 {
        Err(NofsError::CopyMove(String::from_str("At least one source is required")))
    } else {
        Ok(())
    }
}

/// Checks the destination of a copy or move of `count` sources, and says whether it
/// must be created as a folder first: several sources need a folder, so an existing
/// destination that is not one is refused, and a missing one is created (unless the
/// run only simulates).
pub fn destination_plan(count: usize, dest_exists: bool, dest_is_dir: bool, dry_run: bool) -> (r:
    Result<bool, NofsError>)
    ensures
        (count > 1 && dest_exists && !dest_is_dir) <==> r is Err,
        r is Err ==> (r matches Err(NofsError::CopyMove(m)) && m@
            == "Destination must be a directory when copying multiple sources"@),
        r matches Ok(create) ==> create == (!dry_run && !dest_exists && count > 1),
{
    if count > 1 && dest_exists && !dest_is_dir {
        return Err(
            NofsError::CopyMove(
                String::from_str("Destination must be a directory when copying multiple sources"),
            ),
        );
    }
    Ok(!dry_run && !dest_exists && count > 1)
}

/// Where one source lands: inside the destination, under the source's own name, when
/// there are several sources or the destination is an existing folder; at the
/// destination itself otherwise.
pub open spec fn landing_of(
    dest: Seq<char>,
    source: Seq<char>,
    count: nat,
    dest_exists: bool,
    dest_is_dir: bool,
) -> Seq<char> {
    if count > 1 || (dest_exists && dest_is_dir) {
        path_join(dest, reported_name(source))
    } else {
        dest
    }
}

/// Where one source lands (see `landing_of`).
pub fn final_destination(
    dest: &str,
    source: &str,
    count: usize,
    dest_exists: bool,
    dest_is_dir: bool,
) -> (r: String)
    ensures
        r@ == landing_of(dest@, source@, count as nat, dest_exists, dest_is_dir),
{
    if count > 1 || (dest_exists && dest_is_dir) {
        match path_file_name(source) {
            Some(name) => join_path(dest, name.as_str()),
            None => join_path(dest, source),
        }
    } else {
        String::from_str(dest)
    }
}

/// A path of a copy or move as it resolves on disk, with the position of its branch
/// when it was given as `share:path`.
#[derive(Debug, Clone)]
pub struct ResolvedPath {
    /// The path on disk.
    pub path: String,
    /// The branch the path lies on, for a share path.
    pub branch_index: Option<usize>,
}

/// How a path of a copy or move names a share: the text before its first colon, when
/// it holds no path separator, and the path after that colon.
pub open spec fn share_split(p: Seq<char>) -> Option<(Seq<char>, Seq<char>)> {
    let c = first_index(p, ':');
    if c < p.len() && !has_separator(p.subrange(0, c as int)) {
        Some((p.subrange(0, c as int), p.subrange(c as int + 1, p.len() as int)))
    } else {
        None
    }
}

/// Whether `share` is the pool named `name`.
pub open spec fn is_share(share: Option<&Pool>, name: Seq<char>) -> bool {
    share is Some && share.unwrap().name@ == name
}

/// `rp` is where a new file at `rel` goes in the pool: under a branch that takes new
/// files, with the position of a branch of the same path.
pub open spec fn created_at(p: Pool, rel: Seq<char>, rp: ResolvedPath) -> bool {
    exists|k: int, i: int|
        0 <= k < p.branches@.len() && 0 <= i < p.branches@.len() && p.branches@[k].mode
            == BranchMode::RW && rp.path@ == path_join(p.branches@[k].path@, rel)
            && rp.branch_index == Some(i as usize) && (#[trigger] p.branches@[i]).path@
            == (#[trigger] p.branches@[k]).path@
}

/// `rp` is `rel` under one of the pool's branches, with that branch's position.
pub open spec fn found_at(p: Pool, rel: Seq<char>, rp: ResolvedPath) -> bool {
    exists|i: int|
        0 <= i < p.branches@.len() && rp.branch_index == Some(i as usize) && rp.path@
            == path_join((#[trigger] p.branches@[i]).path@, rel)
}

/// Whether the given branch position is a branch of the pool that takes new files.
pub open spec fn keeps_branch(p: Pool, i: Option<usize>) -> bool {
    i is Some && i.unwrap() < p.branches@.len() && p.branches@[i.unwrap() as int].mode
        == BranchMode::RW
}

/// The error for a share that is not the pool at hand.
pub open spec fn unknown_share_text(name: Seq<char>) -> Seq<char> {
    "Share '"@ + name + "' not found or has no branches"@
}

fn unknown_share(name: &str) -> (r: NofsError)
    ensures
        r matches NofsError::CopyMove(m) && m@ == unknown_share_text(name@),
{
    NofsError::CopyMove(join3("Share '", name, "' not found or has no branches"))
}

/// The error for a pool whose create policy found no branch.
pub open spec fn no_branch_text(e: NofsError) -> Seq<char> {
    "No suitable branch: "@ + error_text(e)
}

fn no_branch(e: NofsError) -> (r: NofsError)
    ensures
        r matches NofsError::CopyMove(m) && m@ == no_branch_text(e),
{
    let text = e.to_string();
    NofsError::CopyMove(join2("No suitable branch: ", text.as_str()))
}

impl Pool {
    /// The branch and path a new file at `rel` gets by the pool's create policy, with
    /// the position of the first branch that has the chosen branch's path.
    fn create_target_in(&self, rel: &str) -> (r: Result<ResolvedPath, NofsError>)
        ensures
            match r {
                Ok(rp) => created_at(*self, rel@, rp),
                Err(e) => e matches NofsError::CopyMove(m) && m@ == no_branch_text(
                    NofsError::NoSuitableBranch,
                ),
            },
    {
        let branch = match self.select_create_branch(rel) {
            Ok(b) => b,
            Err(e) => return Err(no_branch(e)),
        };
        let path = join_path(branch.path.as_str(), rel);
        match self.get_branch_index(branch.path.as_str()) {
            Ok(i) => Ok(ResolvedPath { path, branch_index: Some(i) }),
            Err(e) => {
                let text = e.to_string();
                Err(NofsError::CopyMove(join2("Failed to resolve branch: ", text.as_str())))
            },
        }
    }
}

/// Resolves a source or destination of a copy or move. A path that names no share is
/// taken as it is. `share:path` must name the pool at hand; then, for a destination,
/// the pool's create policy picks the branch, and for a source, the first branch where
/// the path exists is taken.
pub fn resolve_transfer_path(path: &str, share: Option<&Pool>, for_create: bool) -> (r: Result<
    ResolvedPath,
    NofsError,
>)
    ensures
        match share_split(path@) {
            None => r matches Ok(rp) && rp.path@ == path@ && rp.branch_index is None,
            Some((name, rel)) => if !is_share(share, name) {
                r matches Err(NofsError::CopyMove(m)) && m@ == unknown_share_text(name)
            } else if for_create {
                match r {
                    Ok(rp) => created_at(*share.unwrap(), rel, rp),
                    Err(e) => e matches NofsError::CopyMove(m) && m@ == no_branch_text(
                        NofsError::NoSuitableBranch,
                    ),
                }
            } else {
                match r {
                    Ok(rp) => found_at(*share.unwrap(), rel, rp),
                    Err(e) => e matches NofsError::CopyMove(m) && m@ == "File not found in share '"@
                        + name + "'"@,
                }
            },
        },
{
    let parsed = parse_path_with_context(path);
    if parsed.has_no_colon || parsed.is_unc {
        return Ok(ResolvedPath { path: String::from_str(path), branch_index: None });
    }
    let rel = parsed.path_after_colon;
    let pool = match share {
        Some(p) => p,
        None => return Err(unknown_share(parsed.prefix)),
    };
    if !parsed.matches_share(pool.name.as_str()) {
        return Err(unknown_share(parsed.prefix));
    }
    assert(share_split(path@) == Some((parsed.prefix@, rel@)));
    assert(is_share(share, parsed.prefix@));
    if for_create {
        return pool.create_target_in(rel);
    }
    let mut i: usize = 0;
    while i < pool.branches.len()
        invariant
            i <= pool.branches@.len(),
            share == Some(pool),
            !for_create,
            share_split(path@) == Some((parsed.prefix@, rel@)),
            is_share(share, parsed.prefix@),
        decreases pool.branches.len() - i,
    {
        if exists_under(&pool.branches[i], rel) {
            let full = join_path(pool.branches[i].path.as_str(), rel);
            let rp = ResolvedPath { path: full, branch_index: Some(i) };
            assert(found_at(*pool, rel@, rp));
            return Ok(rp);
        }
        i = i + 1;
    }
    Err(NofsError::CopyMove(join3("File not found in share '", pool.name.as_str(), "'")))
}

/// Resolves the destination of one source. A path that names no share is taken as it
/// is; `share:path` must name the pool at hand, and then the source's own branch is
/// kept when it takes new files (so a move stays on one disk), else the pool's create
/// policy picks the branch.
pub fn resolve_dest_path(dest: &str, share: Option<&Pool>, source_branch: Option<usize>) -> (r:
    Result<String, NofsError>)
    ensures
        match share_split(dest@) {
            None => r matches Ok(s) && s@ == dest@,
            Some((name, rel)) => if !is_share(share, name) {
                r matches Err(NofsError::CopyMove(m)) && m@ == unknown_share_text(name)
            } else if keeps_branch(*share.unwrap(), source_branch) {
                r matches Ok(s) && s@ == path_join(
                    share.unwrap().branches@[source_branch.unwrap() as int].path@,
                    rel,
                )
            } else {
                match r {
                    Ok(s) => exists|k: int|
                        0 <= k < share.unwrap().branches@.len()
                            && (#[trigger] share.unwrap().branches@[k]).mode == BranchMode::RW
                            && s@ == path_join(share.unwrap().branches@[k].path@, rel),
                    Err(e) => e matches NofsError::CopyMove(m) && m@ == no_branch_text(
                        NofsError::NoSuitableBranch,
                    ),
                }
            },
        },
{
    let parsed = parse_path_with_context(dest);
    if parsed.has_no_colon || parsed.is_unc {
        return Ok(String::from_str(dest));
    }
    let rel = parsed.path_after_colon;
    let pool = match share {
        Some(p) => p,
        None => return Err(unknown_share(parsed.prefix)),
    };
    if !parsed.matches_share(pool.name.as_str()) {
        return Err(unknown_share(parsed.prefix));
    }
    match source_branch {
        Some(i) => {
            if i < pool.branches.len() && pool.branches[i].can_create() {
                return Ok(join_path(pool.branches[i].path.as_str(), rel));
            }
        },
        None => {},
    }
    match pool.select_create_branch(rel) {
        Ok(b) => Ok(join_path(b.path.as_str(), rel)),
        Err(e) => Err(no_branch(e)),
    }
}

} // verus!
