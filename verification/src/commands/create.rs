//! Create: where a new file of the pool goes.
use crate::branch::{Branch, BranchMode};
use crate::error::NofsError;
use crate::policy::{join_path, path_join, policy_name, Policy};
use crate::pool::{writable_count, Pool};
use crate::text::{string_of, string_of_range, strip_trailing, strip_trailing_pos, to_chars};
use crate::branch::opt_view;
use vstd::prelude::*;

verus! {

/// What `Path::parent` returns for a path: the path without its last component, or
/// nothing for a root or an empty path.
pub uninterp spec fn parent_part(p: Seq<char>) -> Option<Seq<char>>;

/// `Path::parent`, as text. Its result is named `parent_part`.
#[verifier::external_body]
fn path_parent(p: &str) -> (r: Option<String>)
    ensures
        opt_view(r) == parent_part(p@),
{
    std::path::Path::new(p).parent().map(|q| q.to_string_lossy().into_owned())
}

/// The directory a new file is placed by: the parent of the path, or the empty path.
pub open spec fn parent_or_empty(p: Seq<char>) -> Seq<char> {
    match parent_part(p) {
        Some(q) => q,
        None => Seq::empty(),
    }
}

/// Where a new file or directory goes: its full path on the chosen branch, and
/// whether it was asked for as a directory (with a trailing `/`).
#[derive(Debug, Clone)]
pub struct CreateTarget {
    /// The full path on the chosen branch.
    pub full_path: String,
    /// Whether the path named a directory.
    pub is_directory: bool,
}

/// What the `create` command reports as JSON.
#[derive(Debug, Clone)]
pub struct CreateOutput {
    /// The pool path asked for.
    pub path: String,
    /// The full path on the chosen branch.
    pub selected_branch: String,
    /// The name of the create policy.
    pub policy: String,
}

/// Where the pool puts a new file (or, with a trailing `/`, a directory) at `path`:
/// the branch its create policy chooses for the parent directory, and the path,
/// without trailing `/`s, under it.
pub fn create_target(pool: &Pool, path: &str) -> (r: Result<CreateTarget, NofsError>)
    ensures
        match r {
            Ok(t) => (t.is_directory <==> (path@.len() > 0 && path@.last() == '/')) && exists|
                i: int,
            |
                0 <= i < pool.branches@.len() && pool.branches@[i].mode == BranchMode::RW
                    && t.full_path@ == path_join(
                    pool.branches@[i].path@,
                    strip_trailing(path@, '/'),
                ),
            Err(e) => e is NoSuitableBranch,
        },
        writable_count(pool.branches@) == 0 ==> r is Err,
{
    let v = to_chars(path);
    let is_directory = v.len() > 0 && v[v.len() - 1] == '/';
    let k = strip_trailing_pos(v.as_slice(), '/');
    let clean = string_of_range(v.as_slice(), 0, k);
    let parent = match path_parent(clean.as_str()) {
        Some(q) => q,
        None => String::new(),
    };
    let branch = match pool.select_create_branch(parent.as_str()) {
        Ok(b) => b,
        Err(e) => return Err(e),
    };
    let full_path = join_path(branch.path.as_str(), clean.as_str());
    Ok(CreateTarget { full_path, is_directory })
}

/// What the `create` command reports for a target (see `CreateOutput`).
pub fn create_output(pool: &Pool, path: &str, target: &CreateTarget) -> (r: CreateOutput)
    ensures
        r.path@ == path@,
        r.selected_branch@ == target.full_path@,
        r.policy@ == policy_name(pool.create_policy),
{
    CreateOutput {
        path: String::from_str(path),
        selected_branch: String::from_str(target.full_path.as_str()),
        policy: pool.create_policy.to_string(),
    }
}

} // verus!
