//! Disk usage: how a pool path is read, and how the sizes of the files met while
//! walking a folder add up, in total and under each subfolder.
use crate::text::{strip_leading, strip_leading_pos, string_of_range, to_chars};
use vstd::prelude::*;

verus! {

/// A pool path relative to the share root: without its leading `/`s (`/`, `/dir`
/// and `dir` all name places under the root).
pub fn normalize_pool_path(pool_path: &str) -> (r: String)
    ensures
        r@ == strip_leading(pool_path@, '/'),
{
    let v = to_chars(pool_path);
    let k = strip_leading_pos(v.as_slice(), '/');
    string_of_range(v.as_slice(), k, v.len())
}

/// What `Path::starts_with` answers: whether `dir`'s components begin `p`'s
/// (so `a/bc` is not under `a/b`).
pub uninterp spec fn path_under(p: Seq<char>, dir: Seq<char>) -> bool;

/// `Path::starts_with`. Its answer is named `path_under` of the two paths.
#[verifier::external_body]
fn starts_with_path(p: &str, dir: &str) -> (r: bool)
    ensures
        r == path_under(p@, dir@),
{
    std::path::Path::new(p).starts_with(dir)
}

/// One entry met while walking a folder.
#[derive(Debug, Clone)]
pub struct WalkEntry {
    /// Its path.
    pub path: String,
    /// Whether it is a file.
    pub is_file: bool,
    /// Whether it is a folder.
    pub is_dir: bool,
    /// Its size in bytes.
    pub size: u64,
    /// How deep it lies below the folder walked (0 for the folder itself).
    pub depth: usize,
}

/// The usage of one folder: the bytes of all its files, and, when asked, those under
/// each of its subfolders.
#[derive(Debug, Clone)]
pub struct DirectoryUsage {
    /// Bytes of all files met.
    pub total_size: u64,
    /// Each subfolder met, in the order met, with the bytes of the files under it.
    pub subdirs: Vec<(String, u64)>,
}

/// A count, or the greatest `u64` when it does not fit (as saturating additions give).
pub open spec fn capped(n: nat) -> u64 {
    if n > u64::MAX {
        u64::MAX
    } else {
        n as u64
    }
}

/// The bytes of the files among the entries.
pub open spec fn file_bytes(es: Seq<WalkEntry>) -> nat
    decreases es.len(),
{
    if es.len() == 0 {
        0
    } else {
        file_bytes(es.drop_last()) + if es.last().is_file { es.last().size as nat } else { 0nat }
    }
}

/// The bytes of the files among the entries that lie under `dir`.
pub open spec fn bytes_under(es: Seq<WalkEntry>, dir: Seq<char>) -> nat
    decreases es.len(),
{
    if es.len() == 0 {
        0
    } else {
        bytes_under(es.drop_last(), dir) + if es.last().is_file && path_under(es.last().path@, dir) {
            es.last().size as nat
        } else {
            0nat
        }
    }
}

/// The subfolders among the entries (folders below the one walked), in order.
pub open spec fn subfolders(es: Seq<WalkEntry>) -> Seq<Seq<char>>
    decreases es.len(),
{
    if es.len() == 0 {
        Seq::empty()
    } else if es.last().is_dir && es.last().depth > 0 {
        subfolders(es.drop_last()).push(es.last().path@)
    } else {
        subfolders(es.drop_last())
    }
}

/// `a + b`, saturating.
fn add_capped(a: u64, b: u64) -> (r: u64)
    ensures
        r == capped((a + b) as nat),
{
    match a.checked_add(b) {
        Some(v) => v,
        None => u64::MAX,
    }
}

/// The bytes of the files under `dir` (all files when `dir` is `None`), saturating.
fn sum_bytes(es: &[WalkEntry], dir: Option<&str>) -> (r: u64)
    ensures
        r == match dir {
            Some(d) => capped(bytes_under(es@, d@)),
            None => capped(file_bytes(es@)),
        },
{
    let mut acc: u64 = 0;
    let mut i: usize = 0;
    while i < es.len()
        invariant
            i <= es@.len(),
            acc == match dir {
                Some(d) => capped(bytes_under(es@.subrange(0, i as int), d@)),
                None => capped(file_bytes(es@.subrange(0, i as int))),
            },
        decreases es.len() - i,
    {
        assert(es@.subrange(0, i + 1).drop_last() =~= es@.subrange(0, i as int));
        assert(es@.subrange(0, i + 1).last() == es@[i as int]);
        let e = &es[i];
        let counted = e.is_file && match dir {
            Some(d) => starts_with_path(e.path.as_str(), d),
            None => true,
        };
        if counted {
            acc = add_capped(acc, e.size);
        }
        i = i + 1;
    }
    assert(es@.subrange(0, i as int) =~= es@);
    acc
}

/// How the entries met while walking a folder add up: the bytes of all files, and,
/// when `all` is asked, each subfolder with the bytes of the files under it; sums
/// saturate at the greatest `u64`.
pub fn directory_usage(entries: &[WalkEntry], all: bool) -> (r: DirectoryUsage)
    ensures
        r.total_size == capped(file_bytes(entries@)),
        !all ==> r.subdirs@.len() == 0,
        all ==> r.subdirs@.len() == subfolders(entries@).len() && forall|k: int|
            0 <= k < r.subdirs@.len() ==> (#[trigger] r.subdirs@[k]).0@ == subfolders(entries@)[k]
                && r.subdirs@[k].1 == capped(bytes_under(entries@, subfolders(entries@)[k])),
{
    let total = sum_bytes(entries, None);
    let mut subdirs: Vec<(String, u64)> = Vec::new();
    if all {
        let mut i: usize = 0;
        while i < entries.len()
            invariant
                i <= entries@.len(),
                subdirs@.len() == subfolders(entries@.subrange(0, i as int)).len(),
                forall|k: int|
                    0 <= k < subdirs@.len() ==> (#[trigger] subdirs@[k]).0@ == subfolders(
                        entries@.subrange(0, i as int),
                    )[k] && subdirs@[k].1 == capped(
                        bytes_under(entries@, subfolders(entries@.subrange(0, i as int))[k]),
                    ),
            decreases entries.len() - i,
        {
            let ghost before = subfolders(entries@.subrange(0, i as int));
            assert(entries@.subrange(0, i + 1).drop_last() =~= entries@.subrange(0, i as int));
            assert(entries@.subrange(0, i + 1).last() == entries@[i as int]);
            let e = &entries[i];
            if e.is_dir && e.depth > 0 {
                let bytes = sum_bytes(entries, Some(e.path.as_str()));
                let ghost old_dirs = subdirs@;
                subdirs.push((String::from_str(e.path.as_str()), bytes));
                proof {
                    let now = subfolders(entries@.subrange(0, i + 1));
                    assert(now == before.push(e.path@));
                    assert forall|k: int| 0 <= k < subdirs@.len() implies (#[trigger] subdirs@[k]).0@
                        == now[k] && subdirs@[k].1 == capped(bytes_under(entries@, now[k])) by {
                        if k < old_dirs.len() {
                            assert(subdirs@[k] == old_dirs[k]);
                        }
                    }
                }
            }
            i = i + 1;
        }
        assert(entries@.subrange(0, i as int) =~= entries@);
    }
    DirectoryUsage { total_size: total, subdirs }
}

} // verus!
