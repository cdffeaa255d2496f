//! Pools: named sets of branches with their policies, and the manager that holds them.
use crate::branch::{opt_view, spec_options, spec_path, used_of, Branch, BranchMode};
use crate::error::{join2, join3, NofsError};
use crate::policy::{
    exists_under, in_branch_order, join_path, path_join, policy_named, present_indices,
    lemma_present_positions, present_positions, CreatePolicy, Policy, SearchPolicy,
};
use crate::size::{parse_size, parse_size_spec};
use crate::config::{branch_specs, first_found, first_set, law_first_found, Config, ShareConfig};
use crate::utils::{has_separator, names_share, parse_path_with_context};
use crate::text::{
    is_ascii_alpha, first_index, lemma_first_index_at, lemma_first_index_bound, strip_leading, strip_leading_pos,
    split, split_chars, string_of, to_chars, trim, trim_chars, views,
    decimal, decimal_string, lemma_text_before_strict, lemma_text_before_trans, lower_text, str_before,
    str_equal, text_before,
};
use vstd::prelude::*;
use vstd::seq_lib::{to_multiset_build, to_multiset_contains, to_multiset_insert};

verus! {

/// No two branches share a path.
pub open spec fn distinct_paths(bs: Seq<Branch>) -> bool {
    forall|i: int, j: int| 0 <= i < j < bs.len() ==> bs[i].path@ != bs[j].path@
}

/// No two branch specifications name the same path.
pub open spec fn distinct_spec_paths(specs: Seq<Seq<char>>) -> bool {
    forall|i: int, j: int|
        0 <= i < j < specs.len() ==> spec_path(specs[i]) != spec_path(specs[j])
}

/// Every branch specification has options that are understood.
pub open spec fn all_options_valid(specs: Seq<Seq<char>>) -> bool {
    forall|i: int| 0 <= i < specs.len() ==> (#[trigger] spec_options(specs[i])) is Some
}

/// The branches are those the specifications describe, in the same order.
pub open spec fn branches_match(bs: Seq<Branch>, specs: Seq<Seq<char>>) -> bool {
    &&& bs.len() == specs.len()
    &&& forall|i: int|
        0 <= i < bs.len() ==> (#[trigger] bs[i]).path@ == spec_path(specs[i]) && spec_options(
            specs[i],
        ) == Some((bs[i].mode, opt_view(bs[i].minfreespace)))
}

/// A share of several branches, with the policies and threshold it works by.
#[derive(Debug)]
pub struct Pool {
    /// Name of the pool (the share).
    pub name: String,
    /// Branches in the pool, in order.
    pub branches: Vec<Branch>,
    /// Policy choosing the branch for new files.
    pub create_policy: Policy,
    /// Policy finding existing files.
    pub search_policy: Policy,
    /// Policy choosing branches to act on.
    pub action_policy: Policy,
    /// Minimum free space a branch must keep to receive new files.
    pub minfreespace: u64,
}

/// Two positions holding the same branch path, if any: the first pair found, the
/// earlier position first.
fn duplicate_path(branches: &[Branch]) -> (r: Option<(usize, usize)>)
    ensures
        match r {
            None => distinct_paths(branches@),
            Some((i, j)) => i < j < branches@.len() && branches@[i as int].path@
                == branches@[j as int].path@,
        },
{
    let n = branches.len();
    let mut j: usize = 0;
    while j < n
        invariant
            j <= n == branches@.len(),
            forall|a: int, b: int|
                0 <= a < b < j ==> branches@[a].path@ != branches@[b].path@,
        decreases n - j,
    {
        let mut i: usize = 0;
        while i < j
            invariant
                i <= j < n == branches@.len(),
                forall|a: int| 0 <= a < i ==> branches@[a].path@ != branches@[j as int].path@,
            decreases j - i,
        {
            if str_equal(branches[i].path.as_str(), branches[j].path.as_str()) {
                return Some((i, j));
            }
            i = i + 1;
        }
        j = j + 1;
    }
    None
}

/// The text of the error for the branch path `path` found at both `i` and `j`.
pub open spec fn duplicate_text(path: Seq<char>, i: nat, j: nat) -> Seq<char> {
    "Duplicate branch path detected: '"@ + path + "' appears at both index "@ + decimal(i)
        + " and "@ + decimal(j) + ". Each branch must have a unique path."@
}

/// The error for a branch path found at both `i` and `j`.
fn duplicate_error(branches: &[Branch], i: usize, j: usize) -> (r: NofsError)
    requires
        i < j < branches@.len(),
    ensures
        r matches NofsError::Config(m) && m@ == duplicate_text(
            branches@[j as int].path@,
            i as nat,
            j as nat,
        ),
{
    let first = join3(
        "Duplicate branch path detected: '",
        branches[j].path.as_str(),
        "' appears at both index ",
    );
    let with_i = join2(first.as_str(), decimal_string(i as u64).as_str());
    let with_and = join2(with_i.as_str(), " and ");
    let with_j = join2(with_and.as_str(), decimal_string(j as u64).as_str());
    let msg = join2(with_j.as_str(), ". Each branch must have a unique path.");
    assert(msg@ =~= duplicate_text(branches@[j as int].path@, i as nat, j as nat));
    NofsError::Config(msg)
}

/// The branch specifications of a comma-separated list, each trimmed.
pub open spec fn path_list(s: Seq<char>) -> Seq<Seq<char>> {
    split(s, ',').map_values(|p: Seq<char>| trim(p))
}

/// A list split at a separator has at least one piece.
proof fn lemma_split_nonempty(s: Seq<char>, sep: char)
    ensures
        split(s, sep).len() >= 1,
{
}

/// Matching branches have distinct paths exactly when their specifications do.
proof fn lemma_distinct_match(bs: Seq<Branch>, specs: Seq<Seq<char>>)
    requires
        branches_match(bs, specs),
    ensures
        distinct_paths(bs) <==> distinct_spec_paths(specs),
{
    if distinct_paths(bs) {
        assert forall|i: int, j: int| 0 <= i < j < specs.len() implies spec_path(specs[i])
            != spec_path(specs[j]) by {
            assert(bs[i].path@ == spec_path(specs[i]));
            assert(bs[j].path@ == spec_path(specs[j]));
        }
    }
    if distinct_spec_paths(specs) {
        assert forall|i: int, j: int| 0 <= i < j < bs.len() implies bs[i].path@
            != bs[j].path@ by {
            assert(bs[i].path@ == spec_path(specs[i]));
            assert(bs[j].path@ == spec_path(specs[j]));
        }
    }
}

/// What makes a share usable: branch specifications that are understood, at least one
/// of them, no path twice, known policy names and a minimum free space that parses.
pub open spec fn share_ok(s: ShareConfig) -> bool {
    &&& branch_specs(s).len() > 0
    &&& all_options_valid(branch_specs(s))
    &&& distinct_spec_paths(branch_specs(s))
    &&& policy_named(lower_text(s.create_policy@)) is Some
    &&& policy_named(lower_text(s.search_policy@)) is Some
    &&& policy_named(lower_text(s.action_policy@)) is Some
    &&& parse_size_spec(s.minfreespace@) is Some
}

/// The pool made from a share: its name, the branches its specifications describe,
/// its policies by name and its minimum free space.
pub open spec fn pool_of_share(p: Pool, name: Seq<char>, s: ShareConfig) -> bool {
    &&& p.name@ == name
    &&& branches_match(p.branches@, branch_specs(s))
    &&& policy_named(lower_text(s.create_policy@)) == Some(p.create_policy)
    &&& policy_named(lower_text(s.search_policy@)) == Some(p.search_policy)
    &&& policy_named(lower_text(s.action_policy@)) == Some(p.action_policy)
    &&& parse_size_spec(s.minfreespace@) == Some(p.minfreespace as nat)
}

impl Pool {
    /// A pool of the given branches, which must all have different paths.
    pub fn new(
        name: String,
        branches: Vec<Branch>,
        create_policy: Policy,
        search_policy: Policy,
        action_policy: Policy,
        minfreespace: u64,
    ) -> (r: Result<Pool, NofsError>)
        ensures
            r is Ok <==> distinct_paths(branches@),
            match r {
                Ok(p) => p.name == name && p.branches@ == branches@ && p.create_policy
                    == create_policy && p.search_policy == search_policy && p.action_policy
                    == action_policy && p.minfreespace == minfreespace,
                Err(e) => e is Config,
            },
    {
        match duplicate_path(branches.as_slice()) {
            Some((i, j)) => Err(duplicate_error(branches.as_slice(), i, j)),
            None => Ok(
                Pool {
                    name,
                    branches,
                    create_policy,
                    search_policy,
                    action_policy,
                    minfreespace,
                },
            ),
        }
    }
}

/// The pools a manager may hold: at least one, no two with the same name, and in each
/// no two branches with the same path.
pub open spec fn pools_ok(ps: Seq<Pool>) -> bool {
    &&& ps.len() > 0
    &&& forall|i: int, j: int| 0 <= i < j < ps.len() ==> ps[i].name@ != ps[j].name@
    &&& forall|i: int| 0 <= i < ps.len() ==> distinct_paths(#[trigger] ps[i].branches@)
}

/// Whether some pool has the given name.
pub open spec fn has_pool(ps: Seq<Pool>, name: Seq<char>) -> bool {
    exists|i: int| 0 <= i < ps.len() && (#[trigger] ps[i]).name@ == name
}

/// The position of the default pool: the one named `default` if there is one, else the
/// first.
pub open spec fn default_position(ps: Seq<Pool>) -> int {
    if has_pool(ps, "default"@) {
        choose|i: int| 0 <= i < ps.len() && (#[trigger] ps[i]).name@ == "default"@
    } else {
        0
    }
}

/// The texts of some string slices.
pub open spec fn texts_of(v: Seq<&str>) -> Seq<Seq<char>> {
    v.map_values(|s: &str| s@)
}

/// The names of some pools, in order.
pub open spec fn pool_name_texts(ps: Seq<Pool>) -> Seq<Seq<char>> {
    ps.map_values(|p: Pool| p.name@)
}

/// Each text comes before the next.
pub open spec fn strictly_sorted(v: Seq<Seq<char>>) -> bool {
    forall|a: int, b: int| 0 <= a < b < v.len() ==> text_before(v[a], v[b])
}

/// Inserting `x` where everything before comes before it and the next comes after
/// keeps a sequence strictly sorted.
pub proof fn lemma_insert_sorted(vs: Seq<Seq<char>>, k: int, x: Seq<char>)
    requires
        strictly_sorted(vs),
        0 <= k <= vs.len(),
        forall|m: int| 0 <= m < k ==> text_before(vs[m], x),
        k < vs.len() ==> text_before(x, vs[k]),
    ensures
        strictly_sorted(vs.insert(k, x)),
{
    let ws = vs.insert(k, x);
    assert forall|a: int, b: int| 0 <= a < b < ws.len() implies text_before(ws[a], ws[b]) by {
        if b < k {
        } else if a < k && b == k {
        } else if a < k {
            lemma_text_before_trans(vs[a], x, vs[k]);
            if b - 1 > k {
                lemma_text_before_trans(vs[a], vs[k], vs[b - 1]);
            }
        } else if a == k {
            if b - 1 > k {
                lemma_text_before_trans(x, vs[k], vs[b - 1]);
            }
        } else {
        }
    }
}

/// Inserts `nm` into increasing `names` at its place; returns the place.
fn insert_in_order<'a>(names: &mut Vec<&'a str>, nm: &'a str) -> (k: usize)
    requires
        strictly_sorted(texts_of(old(names)@)),
        forall|m: int| 0 <= m < old(names)@.len() ==> (#[trigger] old(names)@[m])@ != nm@,
    ensures
        k <= old(names)@.len(),
        final(names)@ == old(names)@.insert(k as int, nm),
        strictly_sorted(texts_of(final(names)@)),
{
    let ghost vs = texts_of(old(names)@);
    let mut k: usize = 0;
    while k < names.len() && !str_before(nm, names[k])
        invariant
            k <= names@.len(),
            names@ == old(names)@,
            vs == texts_of(names@),
            forall|m: int| 0 <= m < k ==> text_before(vs[m], nm@),
            forall|m: int| 0 <= m < names@.len() ==> (#[trigger] names@[m])@ != nm@,
        decreases names.len() - k,
    {
        proof {
            assert(names@[k as int]@ != nm@);
            lemma_text_before_strict(nm@, vs[k as int]);
        }
        k = k + 1;
    }
    names.insert(k, nm);
    proof {
        assert(texts_of(names@) =~= vs.insert(k as int, nm@));
        lemma_insert_sorted(vs, k as int, nm@);
    }
    k
}

/// Whether `prefix:rest` looks like a path on a Windows drive: a one-letter ASCII
/// prefix, and a rest that starts with `\\` or `/`.
pub open spec fn drive_like(prefix: Seq<char>, rest: Seq<char>) -> bool {
    prefix.len() == 1 && is_ascii_alpha(prefix[0]) && rest.len() > 0 && (rest[0] == '\\'
        || rest[0] == '/')
}

/// The position of the pool with the given name (meaningful when there is one).
pub open spec fn pool_position(ps: Seq<Pool>, name: Seq<char>) -> int {
    choose|i: int| 0 <= i < ps.len() && (#[trigger] ps[i]).name@ == name
}

/// Where a possibly share-qualified path leads: the position of its pool and the path
/// inside it, without leading `/`. A path without a colon, or with a separator before
/// its first colon, is in the default pool; `share:path` is in the pool named
/// `share`; an unknown prefix is a Windows drive path in the default pool if it looks
/// like one, and otherwise leads nowhere.
pub open spec fn context_of(ps: Seq<Pool>, input: Seq<char>) -> Option<(int, Seq<char>)> {
    let c = first_index(input, ':');
    if c >= input.len() || has_separator(input.subrange(0, c as int)) {
        Some((default_position(ps), strip_leading(input, '/')))
    } else {
        let prefix = input.subrange(0, c as int);
        let rest = input.subrange(c as int + 1, input.len() as int);
        if has_pool(ps, prefix) {
            Some((pool_position(ps, prefix), strip_leading(rest, '/')))
        } else if drive_like(prefix, rest) {
            Some((default_position(ps), strip_leading(input, '/')))
        } else {
            None
        }
    }
}

/// The error text for a share name that no pool has.
pub open spec fn share_not_found(name: Seq<char>) -> Seq<char> {
    "Share '"@ + name + "' not found"@
}

/// The source paths followed by the destination path.
pub open spec fn path_args(sources: Seq<String>, destination: Seq<char>) -> Seq<Seq<char>> {
    sources.map_values(|s: String| s@).push(destination)
}

/// Whether the path is qualified by the name of one of the pools.
pub open spec fn names_some_share(ps: Seq<Pool>, p: Seq<char>) -> bool {
    exists|i: int| 0 <= i < ps.len() && names_share(p, (#[trigger] ps[i]).name@)
}

/// What `Path::eq` answers for two paths: whether their components are the same
/// (so `a/b` and `a//b/` are the same path).
pub uninterp spec fn same_path(a: Seq<char>, b: Seq<char>) -> bool;

/// `Path::eq` on two paths. Its result is named `same_path`; the one fact stated
/// beside it is that a path is the same as itself (`Path` is `Eq`).
#[verifier::external_body]
fn paths_equal(a: &str, b: &str) -> (r: bool)
    ensures
        r == same_path(a@, b@),
        a@ == b@ ==> r,
{
    std::path::Path::new(a) == std::path::Path::new(b)
}

/// `picked` is some of `all`, taken at increasing positions, in order.
pub open spec fn picked_in_order(picked: Seq<Seq<char>>, all: Seq<Seq<char>>) -> bool {
    exists|positions: Seq<int>|
        positions.len() == picked.len() && (forall|a: int, b: int|
            0 <= a < b < positions.len() ==> positions[a] < positions[b]) && (forall|k: int|
            0 <= k < positions.len() ==> 0 <= #[trigger] positions[k] < all.len() && picked[k]
                == all[positions[k]])
}

/// The path of `rel` under each branch, in order.
pub open spec fn joined_paths(bs: Seq<Branch>, rel: Seq<char>) -> Seq<Seq<char>> {
    bs.map_values(|b: Branch| path_join(b.path@, rel))
}

/// The number of `RW` branches.
pub open spec fn writable_count(bs: Seq<Branch>) -> nat
    decreases bs.len(),
{
    if bs.len() == 0 {
        0
    } else {
        writable_count(bs.drop_last()) + if bs.last().mode == BranchMode::RW {
            1nat
        } else {
            0nat
        }
    }
}

/// The sum of the values that were read, the unread ones left out.
pub open spec fn sum_read(vs: Seq<Option<u64>>) -> nat
    decreases vs.len(),
{
    if vs.len() == 0 {
        0
    } else {
        sum_read(vs.drop_last()) + match vs.last() {
            Some(v) => v as nat,
            None => 0nat,
        }
    }
}

/// The sum of the values that were read, the unread ones left out, capped at the
/// largest `u64`.
pub fn saturating_total(vs: &[Option<u64>]) -> (r: u64)
    ensures
        r as nat == if sum_read(vs@) > u64::MAX as nat {
            u64::MAX as nat
        } else {
            sum_read(vs@)
        },
{
    let mut total: u64 = 0;
    let mut i: usize = 0;
    while i < vs.len()
        invariant
            i <= vs@.len(),
            total as nat == if sum_read(vs@.subrange(0, i as int)) > u64::MAX as nat {
                u64::MAX as nat
            } else {
                sum_read(vs@.subrange(0, i as int))
            },
        decreases vs.len() - i,
    {
        proof {
            assert(vs@.subrange(0, i + 1).drop_last() =~= vs@.subrange(0, i as int));
        }
        match vs[i] {
            Some(v) => {
                total = total.saturating_add(v);
            },
            None => {},
        }
        i = i + 1;
    }
    assert(vs@.subrange(0, i as int) =~= vs@);
    total
}

impl Pool {
    /// The number of branches.
    pub fn branch_count(&self) -> (r: usize)
        ensures
            r == self.branches@.len(),
    {
        self.branches.len()
    }

    /// The number of branches that may receive new files (`RW`).
    pub fn writable_branch_count(&self) -> (r: usize)
        ensures
            r == writable_count(self.branches@),
            r <= self.branches@.len(),
    {
        let mut n: usize = 0;
        let mut i: usize = 0;
        while i < self.branches.len()
            invariant
                i <= self.branches@.len(),
                n == writable_count(self.branches@.subrange(0, i as int)),
                n <= i,
            decreases self.branches.len() - i,
        {
            proof {
                assert(self.branches@.subrange(0, i + 1).drop_last() =~= self.branches@.subrange(
                    0,
                    i as int,
                ));
            }
            if self.branches[i].can_create() {
                n = n + 1;
            }
            i = i + 1;
        }
        assert(self.branches@.subrange(0, i as int) =~= self.branches@);
        n
    }

    /// The position of the branch whose path is exactly `branch_path`; a `Branch`
    /// error when there is none.
    pub fn get_branch_index(&self, branch_path: &str) -> (r: Result<usize, NofsError>)
        ensures
            match r {
                Ok(i) => i < self.branches@.len() && self.branches@[i as int].path@
                    == branch_path@ && forall|j: int|
                    0 <= j < i ==> self.branches@[j].path@ != branch_path@,
                Err(e) => e is Branch && forall|j: int|
                    0 <= j < self.branches@.len() ==> self.branches@[j].path@ != branch_path@,
            },
    {
        let mut i: usize = 0;
        while i < self.branches.len()
            invariant
                i <= self.branches@.len(),
                forall|j: int| 0 <= j < i ==> self.branches@[j].path@ != branch_path@,
            decreases self.branches.len() - i,
        {
            if str_equal(self.branches[i].path.as_str(), branch_path) {
                return Ok(i);
            }
            i = i + 1;
        }
        let head = join3("Branch path '", branch_path, "' not found in pool '");
        Err(NofsError::Branch(join3(head.as_str(), self.name.as_str(), "'")))
    }

    /// The first branch whose path is the same path as `path` (see `same_path`).
    pub fn find_branch(&self, path: &str) -> (r: Option<&Branch>)
        ensures
            match r {
                Some(b) => exists|i: int|
                    0 <= i < self.branches@.len() && *b == self.branches@[i] && same_path(
                        self.branches@[i].path@,
                        path@,
                    ) && forall|j: int|
                        0 <= j < i ==> !same_path(self.branches@[j].path@, path@),
                None => forall|j: int|
                    0 <= j < self.branches@.len() ==> !same_path(self.branches@[j].path@, path@),
            },
    {
        let mut i: usize = 0;
        while i < self.branches.len()
            invariant
                i <= self.branches@.len(),
                forall|j: int| 0 <= j < i ==> !same_path(self.branches@[j].path@, path@),
            decreases self.branches.len() - i,
        {
            if paths_equal(self.branches[i].path.as_str(), path) {
                return Some(&self.branches[i]);
            }
            i = i + 1;
        }
        None
    }

    /// The available space of each branch as it is counted in the pool's total: read
    /// for the `RW` branches, left out (`None`) for the others and where it cannot be
    /// read.
    pub fn available_reads(&self) -> (r: Vec<Option<u64>>)
        ensures
            r@.len() == self.branches@.len(),
            forall|i: int|
                0 <= i < r@.len() && self.branches@[i].mode != BranchMode::RW ==> (
                #[trigger] r@[i]) is None,
    {
        let mut out: Vec<Option<u64>> = Vec::new();
        let mut i: usize = 0;
        while i < self.branches.len()
            invariant
                i <= self.branches@.len(),
                out@.len() == i,
                forall|j: int|
                    0 <= j < i && self.branches@[j].mode != BranchMode::RW ==> (
                    #[trigger] out@[j]) is None,
            decreases self.branches.len() - i,
        {
            let b = &self.branches[i];
            if b.can_create() {
                match b.available_space() {
                    Ok(v) => out.push(Some(v)),
                    Err(_) => out.push(None),
                }
            } else {
                out.push(None);
            }
            i = i + 1;
        }
        out
    }

    /// The size of each branch's filesystem, `None` where it cannot be read.
    pub fn total_reads(&self) -> (r: Vec<Option<u64>>)
        ensures
            r@.len() == self.branches@.len(),
    {
        let mut out: Vec<Option<u64>> = Vec::new();
        let mut i: usize = 0;
        while i < self.branches.len()
            invariant
                i <= self.branches@.len(),
                out@.len() == i,
            decreases self.branches.len() - i,
        {
            match self.branches[i].total_space() {
                Ok(v) => out.push(Some(v)),
                Err(_) => out.push(None),
            }
            i = i + 1;
        }
        out
    }

    /// The available space of the `RW` branches, added up (see `available_reads` and
    /// `saturating_total`); branches whose space cannot be read are left out.
    pub fn total_available_space(&self) -> (r: Result<u64, NofsError>)
        ensures
            r is Ok,
            writable_count(self.branches@) == 0 ==> r == Ok::<u64, NofsError>(0),
    {
        let reads = self.available_reads();
        proof {
            if writable_count(self.branches@) == 0 {
                lemma_no_writable(self.branches@);
                lemma_sum_read_none(reads@);
            }
        }
        Ok(saturating_total(reads.as_slice()))
    }

    /// The size of all branches' filesystems, added up (see `total_reads` and
    /// `saturating_total`); branches whose size cannot be read are left out.
    pub fn total_space(&self) -> (r: Result<u64, NofsError>)
        ensures
            r is Ok,
            self.branches@.len() == 0 ==> r == Ok::<u64, NofsError>(0),
    {
        let reads = self.total_reads();
        proof {
            if self.branches@.len() == 0 {
                lemma_sum_read_none(reads@);
            }
        }
        Ok(saturating_total(reads.as_slice()))
    }

    /// The total space less the available space, never below zero.
    pub fn total_used_space(&self) -> (r: Result<u64, NofsError>)
        ensures
            r is Ok,
            self.branches@.len() == 0 ==> r == Ok::<u64, NofsError>(0),
    {
        let total = match self.total_space() {
            Ok(t) => t,
            Err(e) => return Err(e),
        };
        let available = match self.total_available_space() {
            Ok(a) => a,
            Err(e) => return Err(e),
        };
        proof {
            if self.branches@.len() == 0 {
                assert(writable_count(self.branches@) == 0);
            }
        }
        Ok(used_of(total, available))
    }

    /// The paths under the branches where `pool_path` exists, in branch order.
    pub fn resolve_path(&self, pool_path: &str) -> (r: Result<Vec<String>, NofsError>)
        ensures
            r matches Ok(v) && v@.len() <= self.branches@.len() && forall|k: int|
                0 <= k < v@.len() ==> joined_paths(self.branches@, pool_path@).contains(
                    (#[trigger] v@[k])@,
                ),
            r matches Ok(v) && picked_in_order(
                v@.map_values(|s: String| s@),
                joined_paths(self.branches@, pool_path@),
            ),
    {
        let ghost joined = joined_paths(self.branches@, pool_path@);
        let ghost mut positions: Seq<int> = Seq::empty();
        let mut out: Vec<String> = Vec::new();
        let mut i: usize = 0;
        while i < self.branches.len()
            invariant
                i <= self.branches@.len(),
                joined == joined_paths(self.branches@, pool_path@),
                out@.len() <= i,
                forall|k: int|
                    0 <= k < out@.len() ==> joined_paths(self.branches@, pool_path@).contains(
                        (#[trigger] out@[k])@,
                    ),
                positions.len() == out@.len(),
                forall|a: int, b: int| 0 <= a < b < positions.len() ==> positions[a] < positions[b],
                forall|k: int|
                    0 <= k < positions.len() ==> 0 <= #[trigger] positions[k] < i && out@[k]@
                        == joined[positions[k]],
            decreases self.branches.len() - i,
        {
            let full = join_path(self.branches[i].path.as_str(), pool_path);
            if crate::branch::path_exists(full.as_str()) {
                out.push(full);
                proof {
                    let k = out@.len() - 1;
                    assert(joined_paths(self.branches@, pool_path@)[i as int] == out@[k]@);
                    positions = positions.push(i as int);
                }
            }
            i = i + 1;
        }
        proof {
            let vs = out@.map_values(|s: String| s@);
            assert forall|k: int| 0 <= k < positions.len() implies 0 <= #[trigger] positions[k]
                < joined.len() && vs[k] == joined[positions[k]] by {}
            assert(picked_in_order(vs, joined));
        }
        Ok(out)
    }

    /// The path under the first branch where `pool_path` exists, if any: the existence
    /// of the path under each branch is read, in order, and the first branch read as
    /// holding it gives the path (see `first_found`).
    pub fn resolve_path_first(&self, pool_path: &str) -> (r: Result<Option<String>, NofsError>)
        ensures
            r is Ok,
            r matches Ok(Some(p)) ==> joined_paths(self.branches@, pool_path@).contains(p@),
            self.branches@.len() == 0 ==> r == Ok::<Option<String>, NofsError>(None),
            exists|flags: Seq<bool>|
                flags.len() == self.branches@.len() && match r {
                    Ok(Some(p)) => first_set(flags) matches Some(i) && p@ == joined_paths(
                        self.branches@,
                        pool_path@,
                    )[i],
                    _ => first_set(flags) is None,
                },
    {
        let mut flags: Vec<bool> = Vec::new();
        let mut i: usize = 0;
        while i < self.branches.len()
            invariant
                i <= self.branches@.len(),
                flags@.len() == i,
            decreases self.branches.len() - i,
        {
            flags.push(exists_under(&self.branches[i], pool_path));
            i = i + 1;
        }
        match first_found(flags.as_slice()) {
            Some(k) => {
                proof {
                    law_first_found(flags@);
                }
                let full = join_path(self.branches[k].path.as_str(), pool_path);
                assert(joined_paths(self.branches@, pool_path@)[k as int] == full@);
                Ok(Some(full))
            },
            None => {
                proof {
                    if self.branches@.len() == 0 {
                        assert(flags@ =~= Seq::<bool>::empty());
                    }
                }
                Ok(None)
            },
        }
    }

    /// The branch for a new file at `relative_path`, by the pool's create policy and
    /// minimum free space (see `CreatePolicy::select`).
    pub fn select_create_branch(&self, relative_path: &str) -> (r: Result<&Branch, NofsError>)
        ensures
            match r {
                Ok(b) => exists|i: int|
                    0 <= i < self.branches@.len() && *b == self.branches@[i]
                        && self.branches@[i].mode == BranchMode::RW,
                Err(e) => e is NoSuitableBranch,
            },
            writable_count(self.branches@) == 0 ==> r is Err,
    {
        let policy = CreatePolicy::new(self.branches.as_slice(), self.minfreespace);
        proof {
            if writable_count(self.branches@) == 0 {
                lemma_no_writable(self.branches@);
            }
        }
        policy.select(self.create_policy, Some(relative_path))
    }

    /// The branches where `relative_path` exists, in order.
    pub fn find_all_branches(&self, relative_path: &str) -> (r: Vec<&Branch>)
        ensures
            r@.len() <= self.branches@.len(),
            forall|k: int| 0 <= k < r@.len() ==> self.branches@.contains(*#[trigger] r@[k]),
            in_branch_order(r@.map_values(|b: &Branch| *b), self.branches@),
    {
        let search = SearchPolicy::new(self.branches.as_slice());
        search.find_all(relative_path)
    }

    /// Whether `pool_path` exists under some branch: the existence of the path under
    /// each branch is read, in order, and the answer is whether any read was `true`
    /// (see `present_indices`).
    pub fn exists_in_pool(&self, pool_path: &str) -> (r: bool)
        ensures
            exists|flags: Seq<bool>|
                flags.len() == self.branches@.len() && r == (present_positions(flags).len() > 0)
                    && r == (exists|i: int| 0 <= i < flags.len() && #[trigger] flags[i]),
            self.branches@.len() == 0 ==> !r,
    {
        let mut flags: Vec<bool> = Vec::new();
        let mut i: usize = 0;
        while i < self.branches.len()
            invariant
                i <= self.branches@.len(),
                flags@.len() == i,
            decreases self.branches.len() - i,
        {
            flags.push(exists_under(&self.branches[i], pool_path));
            i = i + 1;
        }
        let found = present_indices(flags.as_slice());
        proof {
            assert(found@.map_values(|i: usize| i as int).len() == found@.len());
            lemma_present_positions(flags@);
            if present_positions(flags@).len() > 0 {
                assert(flags@[present_positions(flags@)[0]]);
            }
            if self.branches@.len() == 0 {
                assert(flags@ =~= Seq::<bool>::empty());
            }
        }
        found.len() > 0
    }
}

/// Without `RW` branches, no branch is `RW`.
proof fn lemma_no_writable(bs: Seq<Branch>)
    requires
        writable_count(bs) == 0,
    ensures
        forall|i: int| 0 <= i < bs.len() ==> bs[i].mode != BranchMode::RW,
    decreases bs.len(),
{
    if bs.len() > 0 {
        lemma_no_writable(bs.drop_last());
        assert forall|i: int| 0 <= i < bs.len() implies bs[i].mode != BranchMode::RW by {
            if i < bs.len() - 1 {
                assert(bs.drop_last()[i] == bs[i]);
            }
        }
    }
}

/// Nothing read adds up to nothing.
proof fn lemma_sum_read_none(vs: Seq<Option<u64>>)
    requires
        forall|i: int| 0 <= i < vs.len() ==> (#[trigger] vs[i]) is None,
    ensures
        sum_read(vs) == 0,
    decreases vs.len(),
{
    if vs.len() > 0 {
        lemma_sum_read_none(vs.drop_last());
    }
}

/// A path qualified by the name of a pool (a name with no colon and no separator)
/// leads into that pool, to the path after the colon without its leading `/`s.
pub proof fn lemma_share_path_resolves(ps: Seq<Pool>, name: Seq<char>, path: Seq<char>)
    requires
        has_pool(ps, name),
        !name.contains(':'),
        !has_separator(name),
    ensures
        context_of(ps, name + seq![':'] + path) == Some(
            (pool_position(ps, name), strip_leading(path, '/')),
        ),
{
    let input = name + seq![':'] + path;
    assert forall|j: int| 0 <= j < name.len() implies input[j] != ':' by {
        assert(input[j] == name[j]);
    }
    lemma_first_index_at(input, ':', name.len() as int);
    assert(input.subrange(0, name.len() as int) =~= name);
    assert(input.subrange(name.len() as int + 1, input.len() as int) =~= path);
}

/// A path without a colon leads into the default pool, without its leading `/`s.
pub proof fn lemma_plain_path_resolves(ps: Seq<Pool>, p: Seq<char>)
    requires
        !p.contains(':'),
    ensures
        context_of(ps, p) == Some((default_position(ps), strip_leading(p, '/'))),
{
    lemma_first_index_at(p, ':', p.len() as int);
}

/// Holds the pools of a configuration, each under its name.
#[derive(Debug)]
pub struct PoolManager {
    pools: Vec<Pool>,
}

impl View for PoolManager {
    type V = Seq<Pool>;

    /// The pools, in the order they were made.
    closed spec fn view(&self) -> Seq<Pool> {
        self.pools@
    }
}

impl PoolManager {
    #[verifier::type_invariant]
    spec fn inv(self) -> bool {
        pools_ok(self.pools@)
    }

    /// The pools are as `pools_ok` describes.
    pub fn pools_are_ok(&self)
        ensures
            pools_ok(self@),
    {
        proof {
            use_type_invariant(self);
        }
    }

    /// A manager with the single pool `default` of the comma-separated branch
    /// specifications `paths_str` (each trimmed), creating by `policy`, searching by
    /// `Ff`, acting by `EpAll`, with the minimum free space `minfreespace`.
    ///
    /// The first specification that fails to parse (or whose path does not exist)
    /// stops with its `Branch` error; then a path given twice is a `Config` error, an
    /// unknown policy a `Policy` error and a bad size a `Parse` error.
    pub fn from_paths(paths_str: &str, policy: &str, minfreespace: &str) -> (r: Result<
        PoolManager,
        NofsError,
    >)
        ensures
            match r {
                Ok(m) => m@.len() == 1 && m@[0].name@ == "default"@ && branches_match(
                    m@[0].branches@,
                    path_list(paths_str@),
                ) && policy_named(lower_text(policy@)) == Some(m@[0].create_policy)
                    && m@[0].search_policy == Policy::Ff && m@[0].action_policy
                    == Policy::EpAll && parse_size_spec(minfreespace@) == Some(
                    m@[0].minfreespace as nat,
                ),
                Err(e) => e is Branch || (e is Config && all_options_valid(
                    path_list(paths_str@),
                ) && !distinct_spec_paths(path_list(paths_str@))) || (e is Policy
                    && all_options_valid(path_list(paths_str@)) && distinct_spec_paths(
                    path_list(paths_str@),
                ) && policy_named(lower_text(policy@)) is None) || (e is Parse
                    && all_options_valid(path_list(paths_str@)) && distinct_spec_paths(
                    path_list(paths_str@),
                ) && policy_named(lower_text(policy@)) is Some && parse_size_spec(
                    minfreespace@,
                ) is None),
            },
            !all_options_valid(path_list(paths_str@)) ==> (r matches Err(e) && e is Branch),
            r is Ok ==> all_options_valid(path_list(paths_str@)) && distinct_spec_paths(
                path_list(paths_str@),
            ) && policy_named(lower_text(policy@)) is Some && parse_size_spec(minfreespace@) is Some,
    {
        let ghost specs = path_list(paths_str@);
        let v = to_chars(paths_str);
        let pieces = split_chars(v.as_slice(), ',');
        proof {
            lemma_split_nonempty(v@, ',');
            assert(views(pieces@).len() == pieces@.len());
        }
        let mut branches: Vec<Branch> = Vec::new();
        let mut k: usize = 0;
        while k < pieces.len()
            invariant
                k <= pieces@.len(),
                views(pieces@) == split(paths_str@, ','),
                specs == path_list(paths_str@),
                specs.len() == pieces@.len(),
                branches@.len() == k,
                forall|m: int|
                    0 <= m < k ==> (#[trigger] branches@[m]).path@ == spec_path(specs[m])
                        && spec_options(specs[m]) == Some(
                        (branches@[m].mode, opt_view(branches@[m].minfreespace)),
                    ),
            decreases pieces.len() - k,
        {
            let t = trim_chars(pieces[k].as_slice());
            let ts = string_of(t.as_slice());
            assert(views(pieces@)[k as int] == pieces@[k as int]@);
            assert(ts@ == specs[k as int]);
            match Branch::parse(ts.as_str()) {
                Ok(b) => branches.push(b),
                Err(e) => return Err(e),
            }
            k = k + 1;
        }
        proof {
            assert(branches_match(branches@, specs));
            assert forall|m: int| 0 <= m < specs.len() implies (#[trigger] spec_options(
                specs[m],
            )) is Some by {
                assert(branches@[m].path@ == spec_path(specs[m]));
            }
            lemma_distinct_match(branches@, specs);
        }
        if branches.len() == 0 {
            return Err(NofsError::Config(String::from_str("No branches provided")));
        }
        match duplicate_path(branches.as_slice()) {
            Some((i, j)) => return Err(duplicate_error(branches.as_slice(), i, j)),
            None => {},
        }
        let create_policy = match Policy::parse(policy) {
            Ok(p) => p,
            Err(e) => return Err(e),
        };
        let mf = match parse_size(minfreespace) {
            Ok(m) => m,
            Err(e) => return Err(e),
        };
        let pool = Pool {
            name: String::from_str("default"),
            branches,
            create_policy,
            search_policy: Policy::Ff,
            action_policy: Policy::EpAll,
            minfreespace: mf,
        };
        let mut pools: Vec<Pool> = Vec::new();
        pools.push(pool);
        proof {
            assert(pools_ok(pools@));
        }
        Ok(PoolManager { pools })
    }

    /// A manager with one pool per share of the configuration, in order (see
    /// `pool_of_share`). The first share that is not usable (see `share_ok`) stops with
    /// its error; a configuration without shares is a `Config` error.
    pub fn from_config(config: &Config) -> (r: Result<PoolManager, NofsError>)
        requires
            config.names_distinct(),
        ensures
            match r {
                Ok(m) => m@.len() == config.share@.len() && forall|i: int|
                    0 <= i < m@.len() ==> pool_of_share(
                        #[trigger] m@[i],
                        config.share@[i].0@,
                        config.share@[i].1,
                    ),
                Err(e) => e is Branch || config.share@.len() == 0 || exists|i: int|
                    0 <= i < config.share@.len() && !share_ok(#[trigger] config.share@[i].1),
            },
            config.share@.len() == 0 ==> (r matches Err(e) && e is Config),
            (exists|i: int|
                0 <= i < config.share@.len() && !share_ok(#[trigger] config.share@[i].1))
                ==> r is Err,
    {
        let n = config.share.len();
        let mut pools: Vec<Pool> = Vec::new();
        let mut i: usize = 0;
        while i < n
            invariant
                i <= n == config.share@.len(),
                config.names_distinct(),
                pools@.len() == i,
                forall|j: int|
                    0 <= j < i ==> pool_of_share(
                        #[trigger] pools@[j],
                        config.share@[j].0@,
                        config.share@[j].1,
                    ),
                forall|j: int| 0 <= j < i ==> share_ok(#[trigger] config.share@[j].1),
            decreases n - i,
        {
            let name = &config.share[i].0;
            let sc = &config.share[i].1;
            let branches = match sc.get_branches() {
                Ok(b) => b,
                Err(e) => return Err(e),
            };
            proof {
                lemma_distinct_match(branches@, branch_specs(*sc));
                assert forall|m: int| 0 <= m < branch_specs(*sc).len() implies (
                #[trigger] spec_options(branch_specs(*sc)[m])) is Some by {
                    assert(branches@[m].path@ == spec_path(branch_specs(*sc)[m]));
                }
            }
            if branches.len() == 0 {
                return Err(NofsError::Config(join3("No branches defined in share '", name.as_str(), "'")));
            }
            match duplicate_path(branches.as_slice()) {
                Some((a, b)) => return Err(duplicate_error(branches.as_slice(), a, b)),
                None => {},
            }
            let create_policy = match sc.create_policy() {
                Ok(p) => p,
                Err(e) => return Err(e),
            };
            let search_policy = match sc.search_policy() {
                Ok(p) => p,
                Err(e) => return Err(e),
            };
            let action_policy = match sc.action_policy() {
                Ok(p) => p,
                Err(e) => return Err(e),
            };
            let mf = match sc.minfreespace_bytes() {
                Ok(m) => m,
                Err(e) => return Err(e),
            };
            pools.push(
                Pool {
                    name: name.clone(),
                    branches,
                    create_policy,
                    search_policy,
                    action_policy,
                    minfreespace: mf,
                },
            );
            i = i + 1;
        }
        if pools.len() == 0 {
            return Err(NofsError::Config(String::from_str("No shares defined in config")));
        }
        proof {
            assert forall|a: int, b: int| 0 <= a < b < pools@.len() implies pools@[a].name@
                != pools@[b].name@ by {
                assert(pool_of_share(pools@[a], config.share@[a].0@, config.share@[a].1));
                assert(pool_of_share(pools@[b], config.share@[b].0@, config.share@[b].1));
            }
            assert forall|a: int| 0 <= a < pools@.len() implies distinct_paths(
                #[trigger] pools@[a].branches@,
            ) by {
                assert(pool_of_share(pools@[a], config.share@[a].0@, config.share@[a].1));
                assert(share_ok(config.share@[a].1));
                lemma_distinct_match(pools@[a].branches@, branch_specs(config.share@[a].1));
            }
        }
        Ok(PoolManager { pools })
    }

    /// The pool with the given name.
    pub fn get_pool(&self, name: &str) -> (r: Result<&Pool, NofsError>)
        ensures
            match r {
                Ok(p) => exists|i: int|
                    0 <= i < self@.len() && *p == self@[i] && self@[i].name@ == name@,
                Err(e) => !has_pool(self@, name@) && (e matches NofsError::Config(m) && m@
                    == share_not_found(name@)),
            },
    {
        let mut i: usize = 0;
        while i < self.pools.len()
            invariant
                i <= self.pools@.len(),
                forall|j: int| 0 <= j < i ==> self.pools@[j].name@ != name@,
            self@ == self.pools@,
            decreases self.pools.len() - i,
        {
            if str_equal(self.pools[i].name.as_str(), name) {
                assert(self@[i as int] == self.pools@[i as int]);
                return Ok(&self.pools[i]);
            }
            i = i + 1;
        }
        Err(NofsError::Config(join3("Share '", name, "' not found")))
    }

    /// The pool named `default` if there is one, else the first pool.
    pub fn default_pool(&self) -> (r: Result<&Pool, NofsError>)
        ensures
            r matches Ok(p) && *p == self@[default_position(self@)],
            0 <= default_position(self@) < self@.len(),
    {
        proof {
            use_type_invariant(self);
        }
        let mut i: usize = 0;
        while i < self.pools.len()
            invariant
                i <= self.pools@.len(),
                pools_ok(self.pools@),
                forall|j: int| 0 <= j < i ==> self.pools@[j].name@ != "default"@,
            decreases self.pools.len() - i,
        {
            if str_equal(self.pools[i].name.as_str(), "default") {
                proof {
                    assert(has_pool(self.pools@, "default"@));
                    let c = default_position(self.pools@);
                    assert(self.pools@[c].name@ == "default"@);
                    if c != i as int {
                        if c < i {
                            assert(false);
                        } else {
                            assert(self.pools@[i as int].name@ != self.pools@[c].name@);
                        }
                    }
                }
                return Ok(&self.pools[i]);
            }
            i = i + 1;
        }
        proof {
            if has_pool(self.pools@, "default"@) {
                let w = choose|j: int|
                    0 <= j < self.pools@.len() && (#[trigger] self.pools@[j]).name@ == "default"@;
                assert(self.pools@[w].name@ != "default"@);
            }
        }
        Ok(&self.pools[0])
    }

    /// The names of all pools, in increasing order.
    pub fn pool_names(&self) -> (r: Vec<&str>)
        ensures
            strictly_sorted(texts_of(r@)),
            texts_of(r@).to_multiset() == pool_name_texts(self@).to_multiset(),
    {
        proof {
            use_type_invariant(self);
        }
        let ghost ps = self@;
        let ghost pn = pool_name_texts(ps);
        let mut names: Vec<&str> = Vec::new();
        let mut i: usize = 0;
        assert(texts_of(names@) =~= pn.subrange(0, 0));
        while i < self.pools.len()
            invariant
                ps == self.pools@,
                pn == pool_name_texts(ps),
                i <= ps.len(),
                pools_ok(ps),
                strictly_sorted(texts_of(names@)),
                texts_of(names@).to_multiset() == pn.subrange(0, i as int).to_multiset(),
            decreases self.pools.len() - i,
        {
            let nm = self.pools[i].name.as_str();
            let ghost before = pn.subrange(0, i as int);
            let ghost old_names = names@;
            proof {
                assert(!before.contains(nm@)) by {
                    if before.contains(nm@) {
                        let j = choose|j: int| 0 <= j < before.len() && before[j] == nm@;
                        assert(ps[j].name@ == ps[i as int].name@);
                    }
                }
                to_multiset_contains(before, nm@);
                to_multiset_contains(texts_of(old_names), nm@);
                assert forall|m: int| 0 <= m < old_names.len() implies (#[trigger] old_names[m])@
                    != nm@ by {
                    assert(texts_of(old_names)[m] == old_names[m]@);
                }
            }
            let k = insert_in_order(&mut names, nm);
            proof {
                assert(texts_of(names@) =~= texts_of(old_names).insert(k as int, nm@));
                to_multiset_insert(texts_of(old_names), k as int, nm@);
                assert(pn.subrange(0, i + 1) =~= before.push(nm@));
                to_multiset_build(before, nm@);
            }
            i = i + 1;
        }
        assert(pn.subrange(0, i as int) =~= pn);
        names
    }

    /// The position of the pool with the given name, if there is one.
    fn position_of(&self, name: &str) -> (r: Option<usize>)
        ensures
            match r {
                Some(i) => i < self@.len() && has_pool(self@, name@) && i as int == pool_position(
                    self@,
                    name@,
                ),
                None => !has_pool(self@, name@),
            },
    {
        proof {
            use_type_invariant(self);
        }
        let mut i: usize = 0;
        while i < self.pools.len()
            invariant
                i <= self.pools@.len(),
                self@ == self.pools@,
                pools_ok(self.pools@),
                forall|j: int| 0 <= j < i ==> self.pools@[j].name@ != name@,
            decreases self.pools.len() - i,
        {
            if str_equal(self.pools[i].name.as_str(), name) {
                proof {
                    assert(has_pool(self@, name@));
                    let c = pool_position(self@, name@);
                    if c != i as int {
                        if c > i as int {
                            assert(self.pools@[i as int].name@ != self.pools@[c].name@);
                        }
                    }
                }
                return Some(i);
            }
            i = i + 1;
        }
        None
    }

    /// Where a possibly share-qualified path leads (see `context_of`): its pool and the
    /// path inside it. An unknown share prefix that does not look like a drive is a
    /// `Config` error.
    pub fn resolve_context_path<'ctx>(&'ctx self, input: &'ctx str) -> (r: Result<
        (&'ctx Pool, &'ctx str),
        NofsError,
    >)
        ensures
            match context_of(self@, input@) {
                Some((i, rest)) => r matches Ok((p, q)) && 0 <= i < self@.len() && *p == self@[i]
                    && q@ == rest,
                None => r matches Err(NofsError::Config(m)) && m@ == share_not_found(
                    input@.subrange(0, first_index(input@, ':') as int),
                ),
            },
    {
        proof {
            use_type_invariant(self);
        }
        let parsed = parse_path_with_context(input);
        let v = to_chars(input);
        proof {
            lemma_first_index_bound(input@, ':');
        }
        if parsed.has_no_colon || parsed.is_unc {
            let pool = match self.default_pool() {
                Ok(p) => p,
                Err(e) => return Err(e),
            };
            let k = strip_leading_pos(v.as_slice(), '/');
            return Ok((pool, input.substring_char(k, v.len())));
        }
        match self.position_of(parsed.prefix) {
            Some(i) => {
                let w = to_chars(parsed.path_after_colon);
                let k = strip_leading_pos(w.as_slice(), '/');
                assert(self@[i as int] == self.pools@[i as int]);
                return Ok((&self.pools[i], parsed.path_after_colon.substring_char(k, w.len())));
            },
            None => {},
        }
        if parsed.looks_like_windows_drive() {
            let pool = match self.default_pool() {
                Ok(p) => p,
                Err(e) => return Err(e),
            };
            let k = strip_leading_pos(v.as_slice(), '/');
            Ok((pool, input.substring_char(k, v.len())))
        } else {
            Err(NofsError::Config(join3("Share '", parsed.prefix, "' not found")))
        }
    }

    /// The pool named by the first of the paths (the sources, then the destination)
    /// that is qualified by a pool's name, if any.
    pub fn extract_share_from_paths(&self, sources: &[String], destination: &str) -> (r: Option<
        &Pool,
    >)
        ensures
            match r {
                Some(p) => exists|k: int, i: int|
                    0 <= k <= sources@.len() && 0 <= i < self@.len() && *p == self@[i]
                        && names_share(
                        #[trigger] path_args(sources@, destination@)[k],
                        (#[trigger] self@[i]).name@,
                    ) && forall|m: int|
                        0 <= m < k ==> !names_some_share(
                            self@,
                            #[trigger] path_args(sources@, destination@)[m],
                        ),
                None => forall|m: int|
                    0 <= m <= sources@.len() ==> !names_some_share(
                        self@,
                        #[trigger] path_args(sources@, destination@)[m],
                    ),
            },
    {
        let ghost all = path_args(sources@, destination@);
        let n = sources.len();
        let mut k: usize = 0;
        while k < n
            invariant
                n == sources@.len(),
                all == path_args(sources@, destination@),
                k <= n,
                forall|m: int| 0 <= m < k ==> !names_some_share(self@, #[trigger] all[m]),
            decreases n - k,
        {
            assert(sources@[k as int]@ == all[k as int]);
            match self.pool_named_by(sources[k].as_str()) {
                Some(i) => {
                    assert(self@[i as int] == self.pools@[i as int]);
                    return Some(&self.pools[i]);
                },
                None => {},
            }
            k = k + 1;
        }
        assert(destination@ == all[n as int]);
        match self.pool_named_by(destination) {
            Some(i) => {
                assert(self@[i as int] == self.pools@[i as int]);
                Some(&self.pools[i])
            },
            None => None,
        }
    }

    /// The position of the pool whose name qualifies `path`, if any.
    fn pool_named_by(&self, path: &str) -> (r: Option<usize>)
        ensures
            match r {
                Some(i) => i < self@.len() && names_share(path@, self@[i as int].name@),
                None => !names_some_share(self@, path@),
            },
    {
        let parsed = parse_path_with_context(path);
        if parsed.has_no_colon || parsed.is_unc {
            proof {
                assert forall|i: int| 0 <= i < self@.len() implies !names_share(
                    path@,
                    (#[trigger] self@[i]).name@,
                ) by {}
            }
            return None;
        }
        match self.position_of(parsed.prefix) {
            Some(i) => Some(i),
            None => {
                proof {
                    assert forall|i: int| 0 <= i < self@.len() implies !names_share(
                        path@,
                        (#[trigger] self@[i]).name@,
                    ) by {}
                }
                None
            },
        }
    }

    /// All pools, in the order they were made.
    pub fn pools(&self) -> (r: &Vec<Pool>)
        ensures
            r@ == self@,
    {
        &self.pools
    }
}

} // verus!
