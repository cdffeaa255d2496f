//! Conflicts: the same file present in several branches with different content.
//!
//! Reading the directories, the metadata and the file hashes is left to the caller,
//! which hands in what it read; this module decides what is a conflict and how
//! conflicts are ordered.
use crate::branch::opt_view;
use crate::utils::{path_file_name, reported_name};
use crate::text::{lemma_text_before_strict, lemma_text_before_trans, str_before, str_equal, text_before};
use vstd::prelude::*;
use vstd::seq_lib::{to_multiset_build, to_multiset_contains, to_multiset_insert, to_multiset_len};

verus! {

/// One copy of a file, in one branch.
#[derive(Debug, Clone)]
pub struct BranchConflict {
    /// Path of the branch holding the copy.
    pub branch_name: String,
    /// Full path of the copy.
    pub path: String,
    /// Size in bytes.
    pub size: u64,
    /// Hash of the content, when it was computed.
    pub hash: Option<String>,
    /// Modification time, in seconds since the Unix epoch, when known.
    pub mtime: Option<u64>,
    /// Creation time, in seconds since the Unix epoch, when known.
    pub ctime: Option<u64>,
}

/// A file whose copies differ.
#[derive(Debug, Clone)]
pub struct FileConflict {
    /// Name of the file.
    pub name: String,
    /// Its copies, newest first.
    pub branches: Vec<BranchConflict>,
}

/// Two of the copies have different sizes.
pub open spec fn sizes_differ(fs: Seq<BranchConflict>) -> bool {
    exists|a: BranchConflict, b: BranchConflict|
        #![trigger fs.contains(a), fs.contains(b)]
        fs.contains(a) && fs.contains(b) && a.size != b.size
}

/// The first copy has a hash, and some copy has none or another one.
pub open spec fn hashes_differ(fs: Seq<BranchConflict>) -> bool {
    &&& fs.len() > 0
    &&& fs[0].hash is Some
    &&& exists|b: BranchConflict| fs.contains(b) && opt_view(b.hash) != opt_view(fs[0].hash)
}

/// Whether the copies differ: there are at least two, and their sizes differ or,
/// when hashes are compared, the first copy's hash is known and another copy's
/// hash is missing or different. A copy whose hash is missing (it could not be
/// read) makes the first copy's hash decide.
pub open spec fn copies_differ(fs: Seq<BranchConflict>, use_hash: bool) -> bool {
    fs.len() >= 2 && (sizes_differ(fs) || (use_hash && hashes_differ(fs)))
}

/// Two of the copies have different hashes (or one has a hash and the other none).
pub open spec fn some_hashes_unequal(fs: Seq<BranchConflict>) -> bool {
    exists|a: BranchConflict, b: BranchConflict|
        #![trigger fs.contains(a), fs.contains(b)]
        fs.contains(a) && fs.contains(b) && opt_view(a.hash) != opt_view(b.hash)
}

/// When every copy has its hash (or hashes are not compared), whether the copies
/// of a file differ does not depend on the order of the copies. (With a hash
/// missing it does: the first copy's hash decides.)
pub proof fn law_copies_differ_any_order(
    fs: Seq<BranchConflict>,
    gs: Seq<BranchConflict>,
    use_hash: bool,
)
    requires
        fs.to_multiset() == gs.to_multiset(),
        use_hash ==> forall|x: BranchConflict| fs.contains(x) ==> x.hash is Some,
    ensures
        copies_differ(fs, use_hash) == copies_differ(gs, use_hash),
{
    to_multiset_len(fs);
    to_multiset_len(gs);
    assert(fs.len() == gs.len());
    assert forall|x: BranchConflict| fs.contains(x) <==> gs.contains(x) by {
        to_multiset_contains(fs, x);
        to_multiset_contains(gs, x);
    }
    if use_hash && fs.len() > 0 {
        lemma_hashes_differ_all_known(fs);
        lemma_hashes_differ_all_known(gs);
        assert(some_hashes_unequal(fs) == some_hashes_unequal(gs)) by {
            if some_hashes_unequal(fs) {
                let (a, b) = choose|a: BranchConflict, b: BranchConflict|
                    fs.contains(a) && fs.contains(b) && opt_view(a.hash) != opt_view(b.hash);
                assert(gs.contains(a) && gs.contains(b));
            }
            if some_hashes_unequal(gs) {
                let (a, b) = choose|a: BranchConflict, b: BranchConflict|
                    gs.contains(a) && gs.contains(b) && opt_view(a.hash) != opt_view(b.hash);
                assert(fs.contains(a) && fs.contains(b));
            }
        }
    }
}

/// With every copy hashed, the hashes differ exactly when two of them are unequal.
proof fn lemma_hashes_differ_all_known(fs: Seq<BranchConflict>)
    requires
        fs.len() > 0,
        forall|x: BranchConflict| fs.contains(x) ==> x.hash is Some,
    ensures
        hashes_differ(fs) == some_hashes_unequal(fs),
{
    assert(fs.contains(fs[0]));
    if some_hashes_unequal(fs) {
        let (a, b) = choose|a: BranchConflict, b: BranchConflict|
            fs.contains(a) && fs.contains(b) && opt_view(a.hash) != opt_view(b.hash);
        if opt_view(a.hash) != opt_view(fs[0].hash) {
            assert(fs.contains(a));
        } else {
            assert(opt_view(b.hash) != opt_view(fs[0].hash));
        }
    }
    if hashes_differ(fs) {
        let b = choose|b: BranchConflict| fs.contains(b) && opt_view(b.hash) != opt_view(fs[0].hash);
        assert(fs.contains(fs[0]) && fs.contains(b));
    }
}

/// Whether two optional texts are equal.
fn same_text(a: &Option<String>, b: &Option<String>) -> (r: bool)
    ensures
        r == (opt_view(*a) == opt_view(*b)),
{
    match (a, b) {
        (Some(x), Some(y)) => str_equal(x.as_str(), y.as_str()),
        (None, None) => true,
        _ => false,
    }
}

/// Whether the copies of a file differ (see `copies_differ`). With `use_hash`, the
/// hashes are those already in the copies: a caller that wants every copy hashed fills
/// them in first.
pub fn files_differ(branch_files: &[BranchConflict], use_hash: bool) -> (r: bool)
    ensures
        r == copies_differ(branch_files@, use_hash),
{
    let ghost fs = branch_files@;
    if branch_files.len() < 2 {
        return false;
    }
    let first_size = branch_files[0].size;
    let mut i: usize = 1;
    while i < branch_files.len()
        invariant
            1 <= i <= fs.len(),
            fs == branch_files@,
            first_size == fs[0].size,
            forall|j: int| 0 <= j < i ==> (#[trigger] fs[j]).size == first_size,
        decreases branch_files.len() - i,
    {
        if branch_files[i].size != first_size {
            assert(fs.contains(fs[i as int]) && fs.contains(fs[0]));
            return true;
        }
        i = i + 1;
    }
    assert(!sizes_differ(fs)) by {
        assert forall|a: BranchConflict, b: BranchConflict|
            fs.contains(a) && fs.contains(b) implies a.size == b.size by {
            let ia = choose|k: int| 0 <= k < fs.len() && fs[k] == a;
            let ib = choose|k: int| 0 <= k < fs.len() && fs[k] == b;
            assert(fs[ia].size == first_size && fs[ib].size == first_size);
        }
    }
    if !use_hash {
        return false;
    }
    if branch_files[0].hash.is_none() {
        return false;
    }
    let key = &branch_files[0].hash;
    let mut k: usize = 0;
    while k < branch_files.len()
        invariant
            fs.len() >= 2,
            use_hash,
            fs == branch_files@,
            *key == fs[0].hash,
            fs[0].hash is Some,
            k <= fs.len(),
            forall|j: int|
                0 <= j < k ==> opt_view((#[trigger] fs[j]).hash) == opt_view(fs[0].hash),
        decreases branch_files.len() - k,
    {
        if !same_text(key, &branch_files[k].hash) {
            assert(opt_view(fs[k as int].hash) != opt_view(fs[0].hash));
            assert(fs.contains(fs[0]) && fs.contains(fs[k as int]));
            assert(hashes_differ(fs));
            return true;
        }
        k = k + 1;
    }
    assert(!hashes_differ(fs)) by {
        assert forall|b: BranchConflict| fs.contains(b) implies opt_view(b.hash) == opt_view(
            fs[0].hash,
        ) by {
            let ib = choose|k: int| 0 <= k < fs.len() && fs[k] == b;
            assert(opt_view(fs[ib].hash) == opt_view(fs[0].hash));
        }
    }
    false
}

/// The modification time as the copies are ordered by: unknown times after all
/// known ones.
pub open spec fn mtime_rank(m: Option<u64>) -> int {
    match m {
        Some(t) => t as int,
        None => -1,
    }
}

/// Whether copy `a` is listed before copy `b`: newer first, then by path.
pub open spec fn listed_before(a: BranchConflict, b: BranchConflict) -> bool {
    mtime_rank(a.mtime) > mtime_rank(b.mtime) || (mtime_rank(a.mtime) == mtime_rank(b.mtime)
        && text_before(a.path@, b.path@))
}

/// No copy is listed before one that precedes it.
pub open spec fn copies_in_order(fs: Seq<BranchConflict>) -> bool {
    forall|i: int, j: int| 0 <= i < j < fs.len() ==> !listed_before(fs[j], fs[i])
}

/// `listed_before` is a strict order.
proof fn lemma_listed_before(a: BranchConflict, b: BranchConflict, c: BranchConflict)
    ensures
        !listed_before(a, a),
        listed_before(a, b) ==> !listed_before(b, a),
        listed_before(a, b) && listed_before(b, c) ==> listed_before(a, c),
{
    lemma_text_before_strict(a.path@, b.path@);
    lemma_text_before_strict(a.path@, a.path@);
    if text_before(a.path@, b.path@) && text_before(b.path@, c.path@) {
        lemma_text_before_trans(a.path@, b.path@, c.path@);
    }
}

/// Whether copy `a` is listed before copy `b` (see `listed_before`).
fn copy_listed_before(a: &BranchConflict, b: &BranchConflict) -> (r: bool)
    ensures
        r == listed_before(*a, *b),
{
    let ra: i128 = match a.mtime {
        Some(t) => t as i128,
        None => -1,
    };
    let rb: i128 = match b.mtime {
        Some(t) => t as i128,
        None => -1,
    };
    ra > rb || (ra == rb && str_before(a.path.as_str(), b.path.as_str()))
}

/// The copies, newest first and then by path; the same copies, reordered. Copies
/// that tie keep their order.
pub fn sort_copies(files: Vec<BranchConflict>) -> (r: Vec<BranchConflict>)
    ensures
        copies_in_order(r@),
        r@.to_multiset() == files@.to_multiset(),
        copies_in_order(files@) ==> r@ == files@,
{
    let ghost all = files@;
    let mut rest = files;
    let mut out: Vec<BranchConflict> = Vec::new();
    proof {
        assert(all.subrange(0, 0) =~= out@);
        assert(all.subrange(0, all.len() as int) =~= all);
    }
    while rest.len() > 0
        invariant
            rest@.len() <= all.len(),
            rest@ == all.subrange(all.len() - rest@.len(), all.len() as int),
            copies_in_order(out@),
            out@.to_multiset() == all.subrange(0, all.len() - rest@.len()).to_multiset(),
            copies_in_order(all) ==> out@ == all.subrange(0, all.len() - rest@.len()),
        decreases rest.len(),
    {
        let ghost done = all.len() - rest@.len();
        let x = rest.remove(0);
        proof {
            assert(x == all[done]);
            assert(rest@ =~= all.subrange(all.len() - rest@.len(), all.len() as int));
        }
        let ghost old_out = out@;
        let mut k: usize = 0;
        while k < out.len() && !copy_listed_before(&x, &out[k])
            invariant
                k <= out@.len(),
                out@ == old_out,
                forall|m: int| 0 <= m < k ==> !listed_before(x, old_out[m]),
            decreases out.len() - k,
        {
            k = k + 1;
        }
        proof {
            assert forall|m: int| k <= m < old_out.len() implies !listed_before(old_out[m], x) by {
                lemma_listed_before(old_out[m], x, old_out[k as int]);
                lemma_listed_before(x, old_out[k as int], x);
            }
            if copies_in_order(all) && k < old_out.len() {
                assert(old_out[k as int] == all[k as int]);
                assert(!listed_before(all[done], all[k as int]));
            }
        }
        out.insert(k, x);
        proof {
            let ws = out@;
            assert forall|a: int, b: int| 0 <= a < b < ws.len() implies !listed_before(
                ws[b],
                ws[a],
            ) by {
                if b < k {
                } else if a < k && b == k {
                } else if a < k {
                    assert(ws[b] == old_out[b - 1]);
                } else if a == k {
                    assert(ws[b] == old_out[b - 1]);
                } else {
                    assert(ws[b] == old_out[b - 1]);
                    assert(ws[a] == old_out[a - 1]);
                }
            }
            to_multiset_insert(old_out, k as int, x);
            assert(all.subrange(0, done + 1) =~= all.subrange(0, done).push(all[done]));
            to_multiset_build(all.subrange(0, done), all[done]);
            if copies_in_order(all) {
                assert(out@ =~= all.subrange(0, done + 1));
            }
        }
    }
    proof {
        assert(all.subrange(0, all.len() as int) =~= all);
    }
    out
}

/// The groups of copies (a file name and its copies) whose copies differ, in order.
pub open spec fn differing_groups(
    groups: Seq<(String, Vec<BranchConflict>)>,
    use_hash: bool,
) -> Seq<(String, Vec<BranchConflict>)> {
    groups.filter(|g: (String, Vec<BranchConflict>)| copies_differ(g.1@, use_hash))
}

/// The conflict made of a group: its name, and its copies in order.
pub open spec fn conflict_of_group(c: FileConflict, g: (String, Vec<BranchConflict>)) -> bool {
    &&& c.name@ == g.0@
    &&& copies_in_order(c.branches@)
    &&& c.branches@.to_multiset() == g.1@.to_multiset()
}

/// Each conflict is made of the group at its position.
pub open spec fn conflicts_of_groups(
    cs: Seq<FileConflict>,
    gs: Seq<(String, Vec<BranchConflict>)>,
) -> bool {
    &&& cs.len() == gs.len()
    &&& forall|k: int| 0 <= k < cs.len() ==> conflict_of_group(#[trigger] cs[k], gs[k])
}

/// No conflict is listed before one whose name comes first.
pub open spec fn conflicts_in_order(cs: Seq<FileConflict>) -> bool {
    forall|i: int, j: int| 0 <= i < j < cs.len() ==> !text_before(cs[j].name@, cs[i].name@)
}

/// The conflicts of the given groups, in the order of the groups: those whose copies
/// differ (see `copies_differ`), with their copies in order (see `sort_copies`).
pub fn select_conflicts(groups: Vec<(String, Vec<BranchConflict>)>, use_hash: bool) -> (r: Vec<
    FileConflict,
>)
    ensures
        conflicts_of_groups(r@, differing_groups(groups@, use_hash)),
        forall|k: int| 0 <= k < r@.len() ==> (#[trigger] r@[k]).branches@.len() >= 2,
{
    let ghost all = groups@;
    let ghost pred = |g: (String, Vec<BranchConflict>)| copies_differ(g.1@, use_hash);
    let mut rest = groups;
    let mut out: Vec<FileConflict> = Vec::new();
    proof {
        reveal(Seq::filter);
        assert(all.subrange(0, 0) =~= Seq::<(String, Vec<BranchConflict>)>::empty());
        assert(all.subrange(0, all.len() as int) =~= all);
    }
    while rest.len() > 0
        invariant
            rest@.len() <= all.len(),
            rest@ == all.subrange(all.len() - rest@.len(), all.len() as int),
            pred == (|g: (String, Vec<BranchConflict>)| copies_differ(g.1@, use_hash)),
            conflicts_of_groups(out@, all.subrange(0, all.len() - rest@.len()).filter(pred)),
            forall|k: int| 0 <= k < out@.len() ==> (#[trigger] out@[k]).branches@.len() >= 2,
        decreases rest.len(),
    {
        let ghost done = all.len() - rest@.len();
        let ghost prev = all.subrange(0, done).filter(pred);
        let pair = rest.remove(0);
        proof {
            assert(pair == all[done]);
            assert(rest@ =~= all.subrange(all.len() - rest@.len(), all.len() as int));
            assert(all.subrange(0, done + 1).drop_last() =~= all.subrange(0, done));
            assert(all.subrange(0, done + 1).last() == all[done]);
        }
        let (name, files) = pair;
        if files_differ(files.as_slice(), use_hash) {
            let ghost given = files@;
            let sorted = sort_copies(files);
            proof {
                broadcast use vstd::seq_lib::group_to_multiset_ensures;
                assert(sorted@.len() == sorted@.to_multiset().len());
                assert(given.len() == given.to_multiset().len());
            }
            let c = FileConflict { name, branches: sorted };
            let ghost before_push = out@;
            proof {
                reveal(Seq::filter);
                assert(pred(all[done]));
                assert(all.subrange(0, done + 1).filter(pred) == prev.push(all[done]));
                assert(conflict_of_group(c, all[done]));
            }
            out.push(c);
            proof {
                let gs = prev.push(all[done]);
                assert forall|k: int| 0 <= k < out@.len() implies conflict_of_group(
                    #[trigger] out@[k],
                    gs[k],
                ) by {
                    if k < out@.len() - 1 {
                        assert(out@[k] == before_push[k]);
                    }
                }
            }
        } else {
            proof {
                reveal(Seq::filter);
                assert(!pred(all[done]));
                assert(all.subrange(0, done + 1).filter(pred) == prev);
            }
        }
    }
    proof {
        assert(all.subrange(0, all.len() as int) =~= all);
    }
    out
}

/// The conflicts, ordered by name; the same conflicts, reordered. Conflicts whose
/// names tie keep their order.
pub fn sort_conflicts(conflicts: Vec<FileConflict>) -> (r: Vec<FileConflict>)
    ensures
        conflicts_in_order(r@),
        r@.to_multiset() == conflicts@.to_multiset(),
        conflicts_in_order(conflicts@) ==> r@ == conflicts@,
{
    let ghost all = conflicts@;
    let mut rest = conflicts;
    let mut out: Vec<FileConflict> = Vec::new();
    proof {
        assert(all.subrange(0, 0) =~= out@);
        assert(all.subrange(0, all.len() as int) =~= all);
    }
    while rest.len() > 0
        invariant
            rest@.len() <= all.len(),
            rest@ == all.subrange(all.len() - rest@.len(), all.len() as int),
            conflicts_in_order(out@),
            out@.to_multiset() == all.subrange(0, all.len() - rest@.len()).to_multiset(),
            conflicts_in_order(all) ==> out@ == all.subrange(0, all.len() - rest@.len()),
        decreases rest.len(),
    {
        let ghost done = all.len() - rest@.len();
        let x = rest.remove(0);
        proof {
            assert(x == all[done]);
            assert(rest@ =~= all.subrange(all.len() - rest@.len(), all.len() as int));
        }
        let ghost old_out = out@;
        let mut k: usize = 0;
        while k < out.len() && !str_before(x.name.as_str(), out[k].name.as_str())
            invariant
                k <= out@.len(),
                out@ == old_out,
                forall|m: int| 0 <= m < k ==> !text_before(x.name@, old_out[m].name@),
            decreases out.len() - k,
        {
            k = k + 1;
        }
        proof {
            assert forall|m: int| k <= m < old_out.len() implies !text_before(
                old_out[m].name@,
                x.name@,
            ) by {
                lemma_text_before_strict(x.name@, old_out[k as int].name@);
                if text_before(old_out[m].name@, x.name@) {
                    lemma_text_before_trans(old_out[m].name@, x.name@, old_out[k as int].name@);
                }
            }
            if conflicts_in_order(all) && k < old_out.len() {
                assert(old_out[k as int] == all[k as int]);
                assert(!text_before(all[done].name@, all[k as int].name@));
            }
        }
        out.insert(k, x);
        proof {
            let ws = out@;
            assert forall|a: int, b: int| 0 <= a < b < ws.len() implies !text_before(
                ws[b].name@,
                ws[a].name@,
            ) by {
                if b < k {
                } else if a < k && b == k {
                } else if a < k {
                    assert(ws[b] == old_out[b - 1]);
                } else if a == k {
                    assert(ws[b] == old_out[b - 1]);
                } else {
                    assert(ws[b] == old_out[b - 1]);
                    assert(ws[a] == old_out[a - 1]);
                }
            }
            to_multiset_insert(old_out, k as int, x);
            assert(all.subrange(0, done + 1) =~= all.subrange(0, done).push(all[done]));
            to_multiset_build(all.subrange(0, done), all[done]);
            if conflicts_in_order(all) {
                assert(out@ =~= all.subrange(0, done + 1));
            }
        }
    }
    proof {
        assert(all.subrange(0, all.len() as int) =~= all);
    }
    out
}

/// The conflicts among groups of copies of files (each a file name and the copies
/// found under that name): the groups whose copies differ, ordered by name.
pub fn conflicts_from_groups(groups: Vec<(String, Vec<BranchConflict>)>, use_hash: bool) -> (r: Vec<
    FileConflict,
>)
    ensures
        conflicts_in_order(r@),
        exists|s: Seq<FileConflict>|
            conflicts_of_groups(s, differing_groups(groups@, use_hash)) && r@.to_multiset()
                == s.to_multiset(),
        forall|k: int| 0 <= k < r@.len() ==> (#[trigger] r@[k]).branches@.len() >= 2,
{
    let selected = select_conflicts(groups, use_hash);
    let ghost s = selected@;
    let r = sort_conflicts(selected);
    assert(conflicts_of_groups(s, differing_groups(groups@, use_hash)) && r@.to_multiset()
        == s.to_multiset());
    proof {
        broadcast use vstd::seq_lib::group_to_multiset_ensures;
        assert forall|k: int| 0 <= k < r@.len() implies (#[trigger] r@[k]).branches@.len() >= 2 by {
            assert(r@.contains(r@[k]));
            assert(r@.to_multiset().count(r@[k]) > 0);
            assert(s.to_multiset().count(r@[k]) > 0);
            assert(s.contains(r@[k]));
            let j = choose|j: int| 0 <= j < s.len() && s[j] == r@[k];
            assert(s[j].branches@.len() >= 2);
        }
    }
    r
}

/// The conflict of one file, given the copies found of it at `relative_path`: none
/// unless the copies differ (see `copies_differ`).
pub fn single_file_conflict(files: Vec<BranchConflict>, relative_path: &str, use_hash: bool) -> (r:
    Option<FileConflict>)
    ensures
        match r {
            None => !copies_differ(files@, use_hash),
            Some(c) => copies_differ(files@, use_hash) && c.name@ == reported_name(
                relative_path@,
            ) && copies_in_order(c.branches@) && c.branches@.to_multiset()
                == files@.to_multiset(),
        },
{
    if files.len() < 2 {
        return None;
    }
    if files_differ(files.as_slice(), use_hash) {
        let sorted = sort_copies(files);
        let name = match path_file_name(relative_path) {
            Some(n) => n,
            None => String::from_str(relative_path),
        };
        Some(FileConflict { name, branches: sorted })
    } else {
        None
    }
}

/// The copies found under `name`, in the order found.
pub open spec fn copies_named(found: Seq<(String, BranchConflict)>, name: Seq<char>) -> Seq<
    BranchConflict,
>
    decreases found.len(),
{
    if found.len() == 0 {
        Seq::empty()
    } else if found.last().0@ == name {
        copies_named(found.drop_last(), name).push(found.last().1)
    } else {
        copies_named(found.drop_last(), name)
    }
}

/// The copies found, grouped by file name: each name once, with its copies in the order
/// found, and every name found has its group.
pub open spec fn grouped(
    groups: Seq<(String, Vec<BranchConflict>)>,
    found: Seq<(String, BranchConflict)>,
) -> bool {
    &&& forall|a: int, b: int| 0 <= a < b < groups.len() ==> groups[a].0@ != groups[b].0@
    &&& forall|g: int| 0 <= g < groups.len() ==> (#[trigger] groups[g]).1@ == copies_named(found, groups[g].0@)
    &&& forall|i: int| 0 <= i < found.len() ==> exists|g: int| 0 <= g < groups.len() && (#[trigger] groups[g]).0@ == (#[trigger] found[i]).0@
}

/// No copy is found under a name that no entry has.
proof fn lemma_copies_named_absent(found: Seq<(String, BranchConflict)>, name: Seq<char>)
    requires
        forall|i: int| 0 <= i < found.len() ==> (#[trigger] found[i]).0@ != name,
    ensures
        copies_named(found, name).len() == 0,
    decreases found.len(),
{
    if found.len() > 0 {
        assert(found.last() == found[found.len() - 1]);
        lemma_copies_named_absent(found.drop_last(), name);
    }
}

/// The position of the group named `name`, if any.
fn group_position(groups: &Vec<(String, Vec<BranchConflict>)>, name: &str) -> (r: Option<usize>)
    ensures
        match r {
            Some(k) => k < groups@.len() && groups@[k as int].0@ == name@,
            None => forall|k: int| 0 <= k < groups@.len() ==> (#[trigger] groups@[k]).0@ != name@,
        },
{
    let mut g: usize = 0;
    while g < groups.len()
        invariant
            g <= groups@.len(),
            forall|k: int| 0 <= k < g ==> (#[trigger] groups@[k]).0@ != name@,
        decreases groups.len() - g,
    {
        if str_equal(groups[g].0.as_str(), name) {
            return Some(g);
        }
        g = g + 1;
    }
    None
}

/// Groups the copies found (each under its file name) by name (see `grouped`).
pub fn group_copies(found: Vec<(String, BranchConflict)>) -> (r: Vec<(String, Vec<BranchConflict>)>)
    ensures
        grouped(r@, found@),
{
    let ghost all = found@;
    let mut rest = found;
    let mut groups: Vec<(String, Vec<BranchConflict>)> = Vec::new();
    proof {
        assert(all.subrange(0, 0) =~= Seq::<(String, BranchConflict)>::empty());
        assert(all.subrange(0, all.len() as int) =~= all);
    }
    while rest.len() > 0
        invariant
            rest@.len() <= all.len(),
            rest@ == all.subrange(all.len() - rest@.len(), all.len() as int),
            grouped(groups@, all.subrange(0, all.len() - rest@.len())),
        decreases rest@.len(),
    {
        let ghost done = all.subrange(0, all.len() - rest@.len());
        let entry = rest.remove(0);
        let ghost next = all.subrange(0, all.len() - rest@.len());
        proof {
            assert(entry == all[done.len() as int]);
            assert(next =~= done.push(entry));
            assert(next.drop_last() =~= done);
            assert(rest@ =~= all.subrange(all.len() - rest@.len(), all.len() as int));
        }
        let (name, copy) = entry;
        let found_at = group_position(&groups, name.as_str());
        match found_at {
            Some(k) => {
                let ghost before = groups@;
                let (gname, mut copies) = groups.remove(k);
                copies.push(copy);
                groups.insert(k, (gname, copies));
                proof {
                    assert(groups@ =~= before.update(k as int, groups@[k as int]));
                    assert forall|h: int| 0 <= h < groups@.len() implies (#[trigger] groups@[h]).1@
                        == copies_named(next, groups@[h].0@) by {
                        assert(next.last() == entry);
                        if h == k {
                            assert(before[h].0@ == name@);
                        } else {
                            assert(groups@[h] == before[h]);
                            if before[h].0@ == name@ {
                                assert(before[k as int].0@ == name@);
                            }
                        }
                    }
                    assert forall|i: int| 0 <= i < next.len() implies exists|h: int|
                        0 <= h < groups@.len() && (#[trigger] groups@[h]).0@ == (#[trigger] next[i]).0@ by {
                        if i < done.len() {
                            assert(next[i] == done[i]);
                            let h = choose|h: int| 0 <= h < before.len() && (#[trigger] before[h]).0@ == done[i].0@;
                            assert(groups@[h].0@ == before[h].0@);
                        } else {
                            assert(groups@[k as int].0@ == next[i].0@);
                        }
                    }
                }
            },
            None => {
                let ghost before = groups@;
                proof {
                    assert forall|i: int| 0 <= i < done.len() implies (#[trigger] done[i]).0@ != name@ by {
                        let h = choose|h: int| 0 <= h < before.len() && (#[trigger] before[h]).0@ == done[i].0@;
                    }
                    lemma_copies_named_absent(done, name@);
                }
                let mut copies: Vec<BranchConflict> = Vec::new();
                copies.push(copy);
                groups.push((name, copies));
                proof {
                    let n = before.len() as int;
                    assert(next.last() == entry);
                    assert(copies_named(next, name@) =~= seq![copy]);
                    assert forall|h: int| 0 <= h < groups@.len() implies (#[trigger] groups@[h]).1@
                        == copies_named(next, groups@[h].0@) by {
                        if h < n {
                            assert(groups@[h] == before[h]);
                        }
                    }
                    assert forall|i: int| 0 <= i < next.len() implies exists|h: int|
                        0 <= h < groups@.len() && (#[trigger] groups@[h]).0@ == (#[trigger] next[i]).0@ by {
                        if i < done.len() {
                            assert(next[i] == done[i]);
                            let h = choose|h: int| 0 <= h < before.len() && (#[trigger] before[h]).0@ == done[i].0@;
                            assert(groups@[h] == before[h]);
                        } else {
                            assert(groups@[n].0@ == next[i].0@);
                        }
                    }
                    assert forall|a: int, b: int| 0 <= a < b < groups@.len() implies groups@[a].0@ != groups@[b].0@ by {
                        if b == n {
                            assert(groups@[a] == before[a]);
                        } else {
                            assert(groups@[a] == before[a]);
                            assert(groups@[b] == before[b]);
                        }
                    }
                }
            },
        }
    }
    groups
}

/// The conflicts among the copies found (each under its file name): the names whose
/// copies differ, each with its copies newest first, ordered by name.
pub fn conflicts_among(found: Vec<(String, BranchConflict)>, use_hash: bool) -> (r: Vec<FileConflict>)
    ensures
        conflicts_in_order(r@),
        exists|groups: Seq<(String, Vec<BranchConflict>)>, s: Seq<FileConflict>|
            grouped(groups, found@) && conflicts_of_groups(s, differing_groups(groups, use_hash))
                && r@.to_multiset() == s.to_multiset(),
        forall|k: int| 0 <= k < r@.len() ==> (#[trigger] r@[k]).branches@.len() >= 2,
{
    let groups = group_copies(found);
    let ghost gs = groups@;
    let r = conflicts_from_groups(groups, use_hash);
    assert(grouped(gs, found@));
    r
}

} // verus!
