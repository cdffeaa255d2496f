//! Info: how a share's configuration is described.
use crate::branch::{mode_name, opt_view, Branch};
use crate::error::join2;
use crate::policy::policy_name;
use crate::pool::{
    has_pool, pool_name_texts, pool_position, pools_ok, strictly_sorted, texts_of, writable_count,
    Pool, PoolManager,
};
use crate::text::{decimal, decimal_string, push_char};
use vstd::prelude::*;

verus! {

/// A text followed by a line break.
pub open spec fn line(s: Seq<char>) -> Seq<char> {
    s + seq!['\n']
}

/// The line describing the branch at position `i` (counted from 1 when shown): its
/// path, its mode and, when it sets one, its minimum free space.
pub open spec fn branch_line(i: nat, b: Branch) -> Seq<char> {
    line(
        "  "@ + decimal(i + 1) + ". "@ + b.path@ + " ["@ + mode_name(b.mode) + "]"@ + match opt_view(
            b.minfreespace,
        ) {
            Some(m) => " (min: "@ + m + ")"@,
            None => Seq::empty(),
        },
    )
}

/// The lines of the branches from position `from` on.
pub open spec fn branch_lines(bs: Seq<Branch>, n: nat) -> Seq<char>
    decreases n,
{
    if n == 0 {
        Seq::empty()
    } else {
        branch_lines(bs, (n - 1) as nat) + branch_line((n - 1) as nat, bs[n - 1])
    }
}

/// How `info` describes a share: its name, its branch counts, its policies, its
/// minimum free space, then each branch.
pub open spec fn info_text_of(p: Pool) -> Seq<char> {
    let n = p.branches@.len();
    let w = writable_count(p.branches@);
    line("Share: "@ + p.name@) + line("======"@) + line(Seq::empty()) + line(
        "Branches:     "@ + decimal(n),
    ) + line("  Writable:   "@ + decimal(w)) + line(
        "  Read-only:  "@ + decimal(if n >= w { (n - w) as nat } else { 0 }),
    ) + line(Seq::empty()) + line("Policies:"@) + line(
        "  Create:     "@ + policy_name(p.create_policy),
    ) + line("  Search:     "@ + policy_name(p.search_policy)) + line(Seq::empty()) + line(
        "Min Free Space: "@ + decimal(p.minfreespace as nat) + " bytes"@,
    ) + line(Seq::empty()) + line("Branch List:"@) + branch_lines(p.branches@, n)
}

/// `text` with a line break after it.
fn push_line(out: String, text: &str) -> (r: String)
    ensures
        r@ == out@ + line(text@),
{
    let mut a = join2(out.as_str(), text);
    push_char(&mut a, '\n');
    a
}

/// The description of a share that `info` shows (see `info_text_of`).
pub fn info_text(pool: &Pool) -> (r: String)
    ensures
        r@ == info_text_of(*pool),
{
    let n = pool.branch_count();
    let w = pool.writable_branch_count();
    let mut out = String::new();
    out = push_line(out, join2("Share: ", pool.name.as_str()).as_str());
    out = push_line(out, "======");
    out = push_line(out, "");
    out = push_line(out, join2("Branches:     ", decimal_string(n as u64).as_str()).as_str());
    out = push_line(out, join2("  Writable:   ", decimal_string(w as u64).as_str()).as_str());
    let ro = n.saturating_sub(w);
    out = push_line(out, join2("  Read-only:  ", decimal_string(ro as u64).as_str()).as_str());
    out = push_line(out, "");
    out = push_line(out, "Policies:");
    out = push_line(out, join2("  Create:     ", pool.create_policy.to_string().as_str()).as_str());
    out = push_line(out, join2("  Search:     ", pool.search_policy.to_string().as_str()).as_str());
    out = push_line(out, "");
    let mf = join2("Min Free Space: ", decimal_string(pool.minfreespace).as_str());
    out = push_line(out, join2(mf.as_str(), " bytes").as_str());
    out = push_line(out, "");
    out = push_line(out, "Branch List:");
    proof {
        reveal_strlit("");
        assert(""@ =~= Seq::<char>::empty());
    }
    let ghost head = out@;
    let mut i: usize = 0;
    while i < pool.branches.len()
        invariant
            i <= pool.branches@.len(),
            out@ == head + branch_lines(pool.branches@, i as nat),
        decreases pool.branches.len() - i,
    {
        let b = &pool.branches[i];
        let num = decimal_string((i as u64) + 1);
        let s1 = join2("  ", num.as_str());
        let s2 = join2(s1.as_str(), ". ");
        let s3 = join2(s2.as_str(), b.path.as_str());
        let s4 = join2(s3.as_str(), " [");
        let s5 = join2(s4.as_str(), b.mode.to_string().as_str());
        let s6 = join2(s5.as_str(), "]");
        let s7 = match &b.minfreespace {
            Some(m) => {
                let t1 = join2(s6.as_str(), " (min: ");
                let t2 = join2(t1.as_str(), m.as_str());
                join2(t2.as_str(), ")")
            },
            None => s6,
        };
        out = push_line(out, s7.as_str());
        proof {
            assert(s7@ =~= "  "@ + decimal(i as nat + 1) + ". "@ + b.path@ + " ["@ + mode_name(
                b.mode,
            ) + "]"@ + match opt_view(b.minfreespace) {
                Some(m) => " (min: "@ + m + ")"@,
                None => Seq::empty(),
            });
            assert(out@ =~= head + branch_lines(pool.branches@, (i + 1) as nat));
        }
        i = i + 1;
    }
    out
}

/// How `info` summarises one share among all of them.
pub open spec fn share_summary_text(p: Pool) -> Seq<char> {
    line(p.name@ + ":"@) + line(
        "  Branches: "@ + decimal(p.branches@.len()) + " ("@ + decimal(writable_count(p.branches@))
            + " writable)"@,
    ) + line("  Policy: "@ + policy_name(p.create_policy) + " / "@ + policy_name(p.search_policy))
        + line(Seq::empty())
}

/// The summaries of the shares with the first `k` of the given names, in that order
/// (a name no share has adds nothing).
pub open spec fn summaries_text(ps: Seq<Pool>, names: Seq<Seq<char>>, k: nat) -> Seq<char>
    decreases k,
{
    if k == 0 {
        Seq::empty()
    } else {
        summaries_text(ps, names, (k - 1) as nat) + if has_pool(ps, names[k - 1]) {
            share_summary_text(ps[pool_position(ps, names[k - 1])])
        } else {
            Seq::empty()
        }
    }
}

/// How `info` describes all shares: a heading, then a summary of each share, in the
/// order of their names.
pub open spec fn info_all_text_of(ps: Seq<Pool>, names: Seq<Seq<char>>) -> Seq<char> {
    line("Shares"@) + line("======"@) + line(Seq::empty()) + summaries_text(ps, names, names.len())
}

/// The description of all shares that `info` shows (see `info_all_text_of`), the
/// shares taken in increasing order of name.
pub fn info_all_text(mgr: &PoolManager) -> (r: String)
    ensures
        exists|names: Seq<Seq<char>>|
            strictly_sorted(names) && names.to_multiset() == pool_name_texts(mgr@).to_multiset()
                && r@ == info_all_text_of(mgr@, names),
{
    mgr.pools_are_ok();
    let names = mgr.pool_names();
    let ghost ns = texts_of(names@);
    let mut out = String::new();
    out = push_line(out, "Shares");
    out = push_line(out, "======");
    out = push_line(out, "");
    proof {
        reveal_strlit("");
        assert(""@ =~= Seq::<char>::empty());
    }
    let ghost head = out@;
    let mut k: usize = 0;
    while k < names.len()
        invariant
            k <= names@.len(),
            ns == texts_of(names@),
            pools_ok(mgr@),
            out@ == head + summaries_text(mgr@, ns, k as nat),
            ""@ == Seq::<char>::empty(),
        decreases names.len() - k,
    {
        let name = names[k];
        assert(name@ == ns[k as int]);
        match mgr.get_pool(name) {
            Ok(pool) => {
                proof {
                    let i = choose|i: int|
                        0 <= i < mgr@.len() && *pool == mgr@[i] && mgr@[i].name@ == name@;
                    assert(has_pool(mgr@, name@));
                    let c = pool_position(mgr@, name@);
                    if c != i {
                        if c < i {
                            assert(mgr@[c].name@ != mgr@[i].name@);
                        } else {
                            assert(mgr@[i].name@ != mgr@[c].name@);
                        }
                    }
                }
                let s1 = join2(pool.name.as_str(), ":");
                out = push_line(out, s1.as_str());
                let b1 = join2("  Branches: ", decimal_string(pool.branch_count() as u64).as_str());
                let b2 = join2(b1.as_str(), " (");
                let b3 = join2(b2.as_str(), decimal_string(pool.writable_branch_count() as u64).as_str());
                let b4 = join2(b3.as_str(), " writable)");
                out = push_line(out, b4.as_str());
                let p1 = join2("  Policy: ", pool.create_policy.to_string().as_str());
                let p2 = join2(p1.as_str(), " / ");
                let p3 = join2(p2.as_str(), pool.search_policy.to_string().as_str());
                out = push_line(out, p3.as_str());
                out = push_line(out, "");
                proof {
                    assert(out@ =~= head + summaries_text(mgr@, ns, (k + 1) as nat));
                }
            },
            Err(_) => {
                proof {
                    assert(out@ =~= head + summaries_text(mgr@, ns, (k + 1) as nat));
                }
            },
        }
        k = k + 1;
    }
    out
}

/// The policies of a share, by name.
#[derive(Debug, Clone)]
pub struct Policies {
    /// Create policy.
    pub create: String,
    /// Search policy.
    pub search: String,
}

/// One branch as `info` reports it.
#[derive(Debug, Clone)]
pub struct BranchInfo {
    /// Path of the branch.
    pub path: String,
    /// Name of its mode.
    pub mode: String,
    /// Its own minimum free space, as written.
    pub min_free_space: Option<String>,
}

/// What `info` reports of one share as JSON.
#[derive(Debug, Clone)]
pub struct InfoOutput {
    /// Name of the share.
    pub share: String,
    /// Number of branches.
    pub branch_count: usize,
    /// Number of `RW` branches.
    pub writable_branch_count: usize,
    /// Number of other branches.
    pub read_only_branch_count: usize,
    /// Its policies.
    pub policies: Policies,
    /// Minimum free space in bytes.
    pub min_free_space: u64,
    /// Its branches, in order.
    pub branches: Vec<BranchInfo>,
}

/// What `info` reports of one share among all.
#[derive(Debug, Clone)]
pub struct ShareSummary {
    /// Name of the share.
    pub name: String,
    /// Number of branches.
    pub branch_count: usize,
    /// Number of `RW` branches.
    pub writable_branch_count: usize,
    /// Name of its create policy.
    pub create_policy: String,
    /// Name of its search policy.
    pub search_policy: String,
}

/// What `info` reports of all shares as JSON.
#[derive(Debug, Clone)]
pub struct InfoAllOutput {
    /// One summary per share, in increasing order of name.
    pub shares: Vec<ShareSummary>,
}

/// Whether a branch report describes the branch.
pub open spec fn reports_branch(r: BranchInfo, b: Branch) -> bool {
    r.path@ == b.path@ && r.mode@ == mode_name(b.mode) && opt_view(r.min_free_space) == opt_view(
        b.minfreespace,
    )
}

/// The report of one share that `info` gives as JSON.
pub fn info_output(pool: &Pool) -> (r: InfoOutput)
    ensures
        r.share@ == pool.name@,
        r.branch_count == pool.branches@.len(),
        r.writable_branch_count == writable_count(pool.branches@),
        r.read_only_branch_count == pool.branches@.len() - writable_count(pool.branches@),
        r.policies.create@ == policy_name(pool.create_policy),
        r.policies.search@ == policy_name(pool.search_policy),
        r.min_free_space == pool.minfreespace,
        r.branches@.len() == pool.branches@.len(),
        forall|i: int|
            0 <= i < r.branches@.len() ==> reports_branch(#[trigger] r.branches@[i], pool.branches@[i]),
{
    let n = pool.branch_count();
    let w = pool.writable_branch_count();
    let mut branches: Vec<BranchInfo> = Vec::new();
    let mut i: usize = 0;
    while i < pool.branches.len()
        invariant
            i <= pool.branches@.len(),
            branches@.len() == i,
            forall|j: int|
                0 <= j < i ==> reports_branch(#[trigger] branches@[j], pool.branches@[j]),
        decreases pool.branches.len() - i,
    {
        let b = &pool.branches[i];
        let min_free_space = match &b.minfreespace {
            Some(m) => Some(String::from_str(m.as_str())),
            None => None,
        };
        branches.push(
            BranchInfo { path: String::from_str(b.path.as_str()), mode: b.mode.to_string(), min_free_space },
        );
        i = i + 1;
    }
    InfoOutput {
        share: String::from_str(pool.name.as_str()),
        branch_count: n,
        writable_branch_count: w,
        read_only_branch_count: n - w,
        policies: Policies {
            create: pool.create_policy.to_string(),
            search: pool.search_policy.to_string(),
        },
        min_free_space: pool.minfreespace,
        branches,
    }
}

/// Whether a share summary describes the pool.
pub open spec fn summarises(r: ShareSummary, p: Pool) -> bool {
    r.name@ == p.name@ && r.branch_count == p.branches@.len() && r.writable_branch_count
        == writable_count(p.branches@) && r.create_policy@ == policy_name(p.create_policy)
        && r.search_policy@ == policy_name(p.search_policy)
}

/// The report of all shares that `info` gives as JSON: one summary per share, in
/// increasing order of name.
pub fn info_all_output(mgr: &PoolManager) -> (r: InfoAllOutput)
    ensures
        r.shares@.len() == mgr@.len(),
        strictly_sorted(r.shares@.map_values(|s: ShareSummary| s.name@)),
        forall|k: int|
            0 <= k < r.shares@.len() ==> has_pool(mgr@, (#[trigger] r.shares@[k]).name@)
                && summarises(r.shares@[k], mgr@[pool_position(mgr@, r.shares@[k].name@)]),
{
    mgr.pools_are_ok();
    let names = mgr.pool_names();
    let ghost ns = texts_of(names@);
    let mut shares: Vec<ShareSummary> = Vec::new();
    let mut k: usize = 0;
    proof {
        vstd::seq_lib::to_multiset_len(ns);
        vstd::seq_lib::to_multiset_len(pool_name_texts(mgr@));
    }
    while k < names.len()
        invariant
            k <= names@.len(),
            ns == texts_of(names@),
            names@.len() == mgr@.len(),
            strictly_sorted(ns),
            ns.to_multiset() == pool_name_texts(mgr@).to_multiset(),
            pools_ok(mgr@),
            shares@.len() == k,
            forall|j: int| 0 <= j < k ==> (#[trigger] shares@[j]).name@ == ns[j],
            forall|j: int|
                0 <= j < k ==> has_pool(mgr@, (#[trigger] shares@[j]).name@) && summarises(
                    shares@[j],
                    mgr@[pool_position(mgr@, shares@[j].name@)],
                ),
        decreases names.len() - k,
    {
        let name = names[k];
        assert(name@ == ns[k as int]);
        proof {
            vstd::seq_lib::to_multiset_contains(ns, name@);
            vstd::seq_lib::to_multiset_contains(pool_name_texts(mgr@), name@);
            assert(ns.contains(name@));
            let i = choose|i: int| 0 <= i < pool_name_texts(mgr@).len() && pool_name_texts(mgr@)[i] == name@;
            assert(mgr@[i].name@ == name@);
            assert(has_pool(mgr@, name@));
        }
        let pool = match mgr.get_pool(name) {
            Ok(p) => p,
            Err(_) => {
                proof {
                    assert(false);
                }
                return InfoAllOutput { shares };
            },
        };
        proof {
            let i = choose|i: int| 0 <= i < mgr@.len() && *pool == mgr@[i] && mgr@[i].name@ == name@;
            let c = pool_position(mgr@, name@);
            if c != i {
                if c < i {
                    assert(mgr@[c].name@ != mgr@[i].name@);
                } else {
                    assert(mgr@[i].name@ != mgr@[c].name@);
                }
            }
        }
        shares.push(
            ShareSummary {
                name: String::from_str(name),
                branch_count: pool.branch_count(),
                writable_branch_count: pool.writable_branch_count(),
                create_policy: pool.create_policy.to_string(),
                search_policy: pool.search_policy.to_string(),
            },
        );
        k = k + 1;
    }
    assert(shares@.map_values(|s: ShareSummary| s.name@) =~= ns);
    InfoAllOutput { shares }
}

} // verus!
