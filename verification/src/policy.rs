//! Policies: how a branch is chosen for creating a file or for finding one.
use crate::branch::{opt_view, path_exists, Branch, BranchMode};
use crate::error::{join2, NofsError};
use crate::size::parse_size_spec;
pub use crate::size::parse_size;
use crate::text::{chars_eq, is_lower_or_digit, lower_text, to_chars, to_lowercase};
use rand::RngExt;
use crate::nearest::{used_percent_key, used_percent_truncated};
use vstd::prelude::*;

verus! {

/// The branch-selection policies.
///
/// Create policies: `Pfrd` (random, weighted by free space), `Mfs` (most free space),
/// `Ff` (first found), `Rand` (random), `Lfs` (least free space), `Lus` (least used
/// space), `Lup` (least used percentage). Search policies: `Ff`, `All`. Path-preserving
/// policies (`EpMfs`, `EpFf`, `EpRand`, `EpAll`) prefer the branches where the path
/// already exists.
#[derive(Debug, Clone, Copy, PartialEq, Eq, Structural)]
pub enum Policy {
    Pfrd,
    Mfs,
    Ff,
    Rand,
    Lfs,
    Lus,
    Lup,
    EpMfs,
    EpFf,
    EpRand,
    EpAll,
    All,
}

/// The name of a policy, as it is written and shown.
pub open spec fn policy_name(p: Policy) -> Seq<char> {
    match p {
        Policy::Pfrd => "pfrd"@,
        Policy::Mfs => "mfs"@,
        Policy::Ff => "ff"@,
        Policy::Rand => "rand"@,
        Policy::Lfs => "lfs"@,
        Policy::Lus => "lus"@,
        Policy::Lup => "lup"@,
        Policy::EpMfs => "epmfs"@,
        Policy::EpFf => "epff"@,
        Policy::EpRand => "eprand"@,
        Policy::EpAll => "epall"@,
        Policy::All => "all"@,
    }
}

/// The policy whose name is exactly `u`, if any.
pub open spec fn policy_named(u: Seq<char>) -> Option<Policy> {
    if u == "pfrd"@ {
        Some(Policy::Pfrd)
    } else if u == "mfs"@ {
        Some(Policy::Mfs)
    } else if u == "ff"@ {
        Some(Policy::Ff)
    } else if u == "rand"@ {
        Some(Policy::Rand)
    } else if u == "lfs"@ {
        Some(Policy::Lfs)
    } else if u == "lus"@ {
        Some(Policy::Lus)
    } else if u == "lup"@ {
        Some(Policy::Lup)
    } else if u == "epmfs"@ {
        Some(Policy::EpMfs)
    } else if u == "epff"@ {
        Some(Policy::EpFf)
    } else if u == "eprand"@ {
        Some(Policy::EpRand)
    } else if u == "epall"@ {
        Some(Policy::EpAll)
    } else if u == "all"@ {
        Some(Policy::All)
    } else {
        None
    }
}

/// Whether a policy is path-preserving.
pub open spec fn is_ep(p: Policy) -> bool {
    p is EpMfs || p is EpFf || p is EpRand || p is EpAll
}

/// The policy a path-preserving policy falls back to when the path exists nowhere.
pub open spec fn non_ep(p: Policy) -> Policy {
    match p {
        Policy::EpMfs => Policy::Mfs,
        Policy::EpFf => Policy::Ff,
        Policy::EpRand => Policy::Rand,
        Policy::EpAll => Policy::All,
        other => other,
    }
}

/// How a create policy picks among its candidate branches.
#[derive(Debug, Clone, Copy, PartialEq, Eq, Structural)]
pub enum Pick {
    /// The first candidate.
    First,
    /// The candidate with the most available space (the last of equals).
    MostFree,
    /// The candidate with the least available space (the first of equals).
    LeastFree,
    /// A random candidate, each with a chance proportional to its available space.
    Weighted,
    /// A random candidate, each with the same chance.
    Uniform,
    /// The candidate with the least used space (the first of equals).
    LeastUsed,
    /// The candidate with the least used percentage (the first of equals).
    LeastUsedPercent,
}

/// How each policy picks; a path-preserving policy picks as its fallback does.
pub open spec fn pick_of(p: Policy) -> Pick {
    match p {
        Policy::Pfrd => Pick::Weighted,
        Policy::Mfs | Policy::EpMfs => Pick::MostFree,
        Policy::Ff | Policy::All | Policy::EpFf | Policy::EpAll => Pick::First,
        Policy::Rand | Policy::EpRand => Pick::Uniform,
        Policy::Lfs => Pick::LeastFree,
        Policy::Lus => Pick::LeastUsed,
        Policy::Lup => Pick::LeastUsedPercent,
    }
}

impl Policy {
    /// The policy whose name is exactly the given (already lower-cased) text.
    pub fn from_lower_name(u: &[char]) -> (r: Option<Policy>)
        ensures
            r == policy_named(u@),
    {
        if chars_eq(u, "pfrd") {
            Some(Policy::Pfrd)
        } else if chars_eq(u, "mfs") {
            Some(Policy::Mfs)
        } else if chars_eq(u, "ff") {
            Some(Policy::Ff)
        } else if chars_eq(u, "rand") {
            Some(Policy::Rand)
        } else if chars_eq(u, "lfs") {
            Some(Policy::Lfs)
        } else if chars_eq(u, "lus") {
            Some(Policy::Lus)
        } else if chars_eq(u, "lup") {
            Some(Policy::Lup)
        } else if chars_eq(u, "epmfs") {
            Some(Policy::EpMfs)
        } else if chars_eq(u, "epff") {
            Some(Policy::EpFf)
        } else if chars_eq(u, "eprand") {
            Some(Policy::EpRand)
        } else if chars_eq(u, "epall") {
            Some(Policy::EpAll)
        } else if chars_eq(u, "all") {
            Some(Policy::All)
        } else {
            None
        }
    }

    /// Parses a policy name, ignoring case.
    pub fn from_str(s: &str) -> (r: Result<Policy, NofsError>)
        ensures
            match r {
                Ok(p) => policy_named(lower_text(s@)) == Some(p),
                Err(e) => policy_named(lower_text(s@)) is None && e is Policy,
            },
            (forall|i: int| 0 <= i < s@.len() ==> is_lower_or_digit(#[trigger] s@[i])) ==> match r {
                Ok(p) => policy_named(s@) == Some(p),
                Err(_) => policy_named(s@) is None,
            },
    {
        let lower = to_lowercase(s);
        let chars = to_chars(lower.as_str());
        match Policy::from_lower_name(chars.as_slice()) {
            Some(p) => Ok(p),
            None => Err(NofsError::Policy(join2("Unknown policy: ", s))),
        }
    }

    /// Parses a policy name, ignoring case (as `from_str`).
    pub fn parse(s: &str) -> (r: Result<Policy, NofsError>)
        ensures
            match r {
                Ok(p) => policy_named(lower_text(s@)) == Some(p),
                Err(e) => policy_named(lower_text(s@)) is None && e is Policy,
            },
            (forall|i: int| 0 <= i < s@.len() ==> is_lower_or_digit(#[trigger] s@[i])) ==> match r {
                Ok(p) => policy_named(s@) == Some(p),
                Err(_) => policy_named(s@) is None,
            },
    {
        Policy::from_str(s)
    }

    /// The policy a path-preserving policy falls back to; any other policy is kept.
    pub fn to_non_ep_policy(self) -> (r: Policy)
        ensures
            r == non_ep(self),
    {
        match self {
            Policy::EpMfs => Policy::Mfs,
            Policy::EpFf => Policy::Ff,
            Policy::EpRand => Policy::Rand,
            Policy::EpAll => Policy::All,
            other => other,
        }
    }

    /// Whether the policy is path-preserving.
    pub fn is_path_preserving(self) -> (r: bool)
        ensures
            r == is_ep(self),
    {
        match self {
            Policy::EpMfs | Policy::EpFf | Policy::EpRand | Policy::EpAll => true,
            _ => false,
        }
    }

    /// How the policy picks among candidates.
    pub fn pick(self) -> (r: Pick)
        ensures
            r == pick_of(self),
    {
        match self {
            Policy::Pfrd => Pick::Weighted,
            Policy::Mfs | Policy::EpMfs => Pick::MostFree,
            Policy::Ff | Policy::All | Policy::EpFf | Policy::EpAll => Pick::First,
            Policy::Rand | Policy::EpRand => Pick::Uniform,
            Policy::Lfs => Pick::LeastFree,
            Policy::Lus => Pick::LeastUsed,
            Policy::Lup => Pick::LeastUsedPercent,
        }
    }

    /// The name of the policy.
    pub fn to_string(&self) -> (r: String)
        ensures
            r@ == policy_name(*self),
            forall|i: int| 0 <= i < r@.len() ==> is_lower_or_digit(#[trigger] r@[i]),
    {
        proof {
            lemma_policy_name_roundtrip(*self);
        }
        match self {
            Policy::Pfrd => String::from_str("pfrd"),
            Policy::Mfs => String::from_str("mfs"),
            Policy::Ff => String::from_str("ff"),
            Policy::Rand => String::from_str("rand"),
            Policy::Lfs => String::from_str("lfs"),
            Policy::Lus => String::from_str("lus"),
            Policy::Lup => String::from_str("lup"),
            Policy::EpMfs => String::from_str("epmfs"),
            Policy::EpFf => String::from_str("epff"),
            Policy::EpRand => String::from_str("eprand"),
            Policy::EpAll => String::from_str("epall"),
            Policy::All => String::from_str("all"),
        }
    }
}

/// Every policy's name is written in lower_text letters, and names that policy: so
/// `Policy::parse(&p.to_string())` is `Ok(p)` for every policy `p`.
pub proof fn lemma_policy_name_roundtrip(p: Policy)
    ensures
        policy_named(policy_name(p)) == Some(p),
        forall|i: int|
            0 <= i < policy_name(p).len() ==> is_lower_or_digit(#[trigger] policy_name(p)[i]),
{
    reveal_strlit("pfrd");
    reveal_strlit("mfs");
    reveal_strlit("ff");
    reveal_strlit("rand");
    reveal_strlit("lfs");
    reveal_strlit("lus");
    reveal_strlit("lup");
    reveal_strlit("epmfs");
    reveal_strlit("epff");
    reveal_strlit("eprand");
    reveal_strlit("epall");
    reveal_strlit("all");
    match p {
        Policy::Pfrd => {
        },
        Policy::Mfs => {
            assert("mfs"@.len() != "pfrd"@.len());
        },
        Policy::Ff => {
            assert("ff"@.len() != "pfrd"@.len());
            assert("ff"@.len() != "mfs"@.len());
        },
        Policy::Rand => {
            assert("rand"@[0] != "pfrd"@[0]);
            assert("rand"@.len() != "mfs"@.len());
            assert("rand"@.len() != "ff"@.len());
        },
        Policy::Lfs => {
            assert("lfs"@.len() != "pfrd"@.len());
            assert("lfs"@[0] != "mfs"@[0]);
            assert("lfs"@.len() != "ff"@.len());
            assert("lfs"@.len() != "rand"@.len());
        },
        Policy::Lus => {
            assert("lus"@.len() != "pfrd"@.len());
            assert("lus"@[0] != "mfs"@[0]);
            assert("lus"@.len() != "ff"@.len());
            assert("lus"@.len() != "rand"@.len());
            assert("lus"@[1] != "lfs"@[1]);
        },
        Policy::Lup => {
            assert("lup"@.len() != "pfrd"@.len());
            assert("lup"@[0] != "mfs"@[0]);
            assert("lup"@.len() != "ff"@.len());
            assert("lup"@.len() != "rand"@.len());
            assert("lup"@[1] != "lfs"@[1]);
            assert("lup"@[2] != "lus"@[2]);
        },
        Policy::EpMfs => {
            assert("epmfs"@.len() != "pfrd"@.len());
            assert("epmfs"@.len() != "mfs"@.len());
            assert("epmfs"@.len() != "ff"@.len());
            assert("epmfs"@.len() != "rand"@.len());
            assert("epmfs"@.len() != "lfs"@.len());
            assert("epmfs"@.len() != "lus"@.len());
            assert("epmfs"@.len() != "lup"@.len());
        },
        Policy::EpFf => {
            assert("epff"@[0] != "pfrd"@[0]);
            assert("epff"@.len() != "mfs"@.len());
            assert("epff"@.len() != "ff"@.len());
            assert("epff"@[0] != "rand"@[0]);
            assert("epff"@.len() != "lfs"@.len());
            assert("epff"@.len() != "lus"@.len());
            assert("epff"@.len() != "lup"@.len());
            assert("epff"@.len() != "epmfs"@.len());
        },
        Policy::EpRand => {
            assert("eprand"@.len() != "pfrd"@.len());
            assert("eprand"@.len() != "mfs"@.len());
            assert("eprand"@.len() != "ff"@.len());
            assert("eprand"@.len() != "rand"@.len());
            assert("eprand"@.len() != "lfs"@.len());
            assert("eprand"@.len() != "lus"@.len());
            assert("eprand"@.len() != "lup"@.len());
            assert("eprand"@.len() != "epmfs"@.len());
            assert("eprand"@.len() != "epff"@.len());
        },
        Policy::EpAll => {
            assert("epall"@.len() != "pfrd"@.len());
            assert("epall"@.len() != "mfs"@.len());
            assert("epall"@.len() != "ff"@.len());
            assert("epall"@.len() != "rand"@.len());
            assert("epall"@.len() != "lfs"@.len());
            assert("epall"@.len() != "lus"@.len());
            assert("epall"@.len() != "lup"@.len());
            assert("epall"@[2] != "epmfs"@[2]);
            assert("epall"@.len() != "epff"@.len());
            assert("epall"@.len() != "eprand"@.len());
        },
        Policy::All => {
            assert("all"@.len() != "pfrd"@.len());
            assert("all"@[0] != "mfs"@[0]);
            assert("all"@.len() != "ff"@.len());
            assert("all"@.len() != "rand"@.len());
            assert("all"@[0] != "lfs"@[0]);
            assert("all"@[0] != "lus"@[0]);
            assert("all"@[0] != "lup"@[0]);
            assert("all"@.len() != "epmfs"@.len());
            assert("all"@.len() != "epff"@.len());
            assert("all"@.len() != "eprand"@.len());
            assert("all"@.len() != "epall"@.len());
        },
    }
}

/// Falling back is done once: the fallback of a policy is never path-preserving and
/// is its own fallback, and only path-preserving policies change.
pub proof fn lemma_non_ep(p: Policy)
    ensures
        !is_ep(non_ep(p)),
        non_ep(non_ep(p)) == non_ep(p),
        is_ep(p) <==> non_ep(p) != p,
        pick_of(non_ep(p)) == pick_of(p),
{
}

// ---------------------------------------------------------------------------
// Picking among keys
// ---------------------------------------------------------------------------
/// The position of the greatest key, the last one among equals.
pub open spec fn last_max_index(s: Seq<int>) -> int
    decreases s.len(),
{
    if s.len() <= 1 {
        0
    } else {
        let i = last_max_index(s.drop_last());
        if s.last() >= s[i] {
            s.len() - 1
        } else {
            i
        }
    }
}

/// The position of the least key, the first one among equals.
pub open spec fn first_min_index(s: Seq<int>) -> int
    decreases s.len(),
{
    if s.len() <= 1 {
        0
    } else {
        let i = first_min_index(s.drop_last());
        if s.last() < s[i] {
            s.len() - 1
        } else {
            i
        }
    }
}

/// The sum of the keys.
pub open spec fn total(s: Seq<int>) -> int
    decreases s.len(),
{
    if s.len() == 0 {
        0
    } else {
        total(s.drop_last()) + s.last()
    }
}

/// The position of the first key whose running total exceeds `draw`.
pub open spec fn weighted_index(s: Seq<int>, draw: int) -> int
    decreases s.len(),
{
    if s.len() == 0 {
        0
    } else if draw < s[0] {
        0
    } else {
        1 + weighted_index(s.subrange(1, s.len() as int), draw - s[0])
    }
}

proof fn lemma_last_max_index(s: Seq<int>)
    requires
        s.len() > 0,
    ensures
        0 <= last_max_index(s) < s.len(),
        forall|j: int| 0 <= j < s.len() ==> #[trigger] s[j] <= s[last_max_index(s)],
        forall|j: int| last_max_index(s) < j < s.len() ==> #[trigger] s[j] < s[last_max_index(s)],
    decreases s.len(),
{
    if s.len() > 1 {
        let p = s.drop_last();
        lemma_last_max_index(p);
        let m = last_max_index(s);
        assert forall|j: int| 0 <= j < s.len() implies #[trigger] s[j] <= s[m] by {
            if j < s.len() - 1 {
                assert(s[j] == p[j]);
            }
        }
        assert forall|j: int| m < j < s.len() implies #[trigger] s[j] < s[m] by {
            if j < s.len() - 1 {
                assert(s[j] == p[j]);
            }
        }
    }
}

proof fn lemma_first_min_index(s: Seq<int>)
    requires
        s.len() > 0,
    ensures
        0 <= first_min_index(s) < s.len(),
        forall|j: int| 0 <= j < s.len() ==> s[first_min_index(s)] <= #[trigger] s[j],
        forall|j: int| 0 <= j < first_min_index(s) ==> s[first_min_index(s)] < #[trigger] s[j],
    decreases s.len(),
{
    if s.len() > 1 {
        let p = s.drop_last();
        lemma_first_min_index(p);
        let m = first_min_index(s);
        assert forall|j: int| 0 <= j < s.len() implies s[m] <= #[trigger] s[j] by {
            if j < s.len() - 1 {
                assert(s[j] == p[j]);
            }
        }
        assert forall|j: int| 0 <= j < m implies s[m] < #[trigger] s[j] by {
            if j < s.len() - 1 {
                assert(s[j] == p[j]);
            }
        }
    }
}

proof fn lemma_total_nonneg_front(s: Seq<int>)
    requires
        s.len() > 0,
        forall|j: int| 0 <= j < s.len() ==> s[j] >= 0,
    ensures
        total(s) == s[0] + total(s.subrange(1, s.len() as int)),
        total(s.subrange(1, s.len() as int)) >= 0,
    decreases s.len(),
{
    if s.len() == 1 {
        assert(s.drop_last() =~= Seq::<int>::empty());
        assert(s.subrange(1, s.len() as int) =~= Seq::<int>::empty());
    } else {
        lemma_total_nonneg_front(s.drop_last());
        assert(s.drop_last().subrange(1, s.len() - 1) =~= s.subrange(1, s.len() as int).drop_last());
    }
}

proof fn lemma_weighted_index(s: Seq<int>, draw: int)
    requires
        forall|j: int| 0 <= j < s.len() ==> s[j] >= 0,
        0 <= draw < total(s),
    ensures
        0 <= weighted_index(s, draw) < s.len(),
    decreases s.len(),
{
    if s.len() == 0 {
        assert(total(s) == 0);
    } else {
        lemma_total_nonneg_front(s);
        if draw >= s[0] {
            lemma_weighted_index(s.subrange(1, s.len() as int), draw - s[0]);
        }
    }
}

/// Keys as integers.
pub open spec fn ints_of_u64(s: Seq<u64>) -> Seq<int> {
    s.map_values(|x: u64| x as int)
}

/// Keys as integers.
pub open spec fn ints_of_i128(s: Seq<i128>) -> Seq<int> {
    s.map_values(|x: i128| x as int)
}

/// The position of the greatest key, the last among equals (what `max_by_key` returns).
pub fn index_of_most(keys: &[u64]) -> (r: usize)
    requires
        keys.len() > 0,
    ensures
        r == last_max_index(ints_of_u64(keys@)),
        r < keys.len(),
{
    let mut best: usize = 0;
    let mut i: usize = 1;
    proof {
        lemma_last_max_index(ints_of_u64(keys@));
    }
    assert(ints_of_u64(keys@).subrange(0, 1).len() == 1);
    while i < keys.len()
        invariant
            1 <= i <= keys.len(),
            best < i,
            best == last_max_index(ints_of_u64(keys@).subrange(0, i as int)),
        decreases keys.len() - i,
    {
        let ghost pre = ints_of_u64(keys@).subrange(0, i as int);
        let ghost cur = ints_of_u64(keys@).subrange(0, i + 1);
        assert(cur.drop_last() =~= pre);
        proof {
            lemma_last_max_index(pre);
        }
        if keys[i] >= keys[best] {
            best = i;
        }
        i = i + 1;
    }
    assert(ints_of_u64(keys@).subrange(0, keys.len() as int) =~= ints_of_u64(keys@));
    best
}

/// The position of the least key, the first among equals (what `min_by_key` returns).
pub fn index_of_least(keys: &[i128]) -> (r: usize)
    requires
        keys.len() > 0,
    ensures
        r == first_min_index(ints_of_i128(keys@)),
        r < keys.len(),
{
    let mut best: usize = 0;
    let mut i: usize = 1;
    assert(ints_of_i128(keys@).subrange(0, 1).len() == 1);
    while i < keys.len()
        invariant
            1 <= i <= keys.len(),
            best < i,
            best == first_min_index(ints_of_i128(keys@).subrange(0, i as int)),
        decreases keys.len() - i,
    {
        let ghost pre = ints_of_i128(keys@).subrange(0, i as int);
        let ghost cur = ints_of_i128(keys@).subrange(0, i + 1);
        assert(cur.drop_last() =~= pre);
        proof {
            lemma_first_min_index(pre);
        }
        if keys[i] < keys[best] {
            best = i;
        }
        i = i + 1;
    }
    assert(ints_of_i128(keys@).subrange(0, keys.len() as int) =~= ints_of_i128(keys@));
    best
}

/// The sum of the keys.
pub fn sum_of(keys: &[u64]) -> (r: u128)
    requires
        keys.len() <= usize::MAX,
    ensures
        r == total(ints_of_u64(keys@)),
{
    let mut acc: u128 = 0;
    let mut i: usize = 0;
    assert(ints_of_u64(keys@).subrange(0, 0) =~= Seq::<int>::empty());
    while i < keys.len()
        invariant
            i <= keys.len(),
            acc == total(ints_of_u64(keys@).subrange(0, i as int)),
            acc <= i * 0xffff_ffff_ffff_ffff,
        decreases keys.len() - i,
    {
        let ghost cur = ints_of_u64(keys@).subrange(0, i + 1);
        assert(cur.drop_last() =~= ints_of_u64(keys@).subrange(0, i as int));
        assert(acc + keys[i as int] <= (i + 1) * 0xffff_ffff_ffff_ffff) by (nonlinear_arith)
            requires
                acc <= i * 0xffff_ffff_ffff_ffff,
                keys[i as int] <= 0xffff_ffff_ffff_ffff,
        ;
        assert((i + 1) * 0xffff_ffff_ffff_ffff <= 0xffff_ffff_ffff_ffff * 0xffff_ffff_ffff_ffff)
            by (nonlinear_arith)
            requires
                i + 1 <= 0xffff_ffff_ffff_ffff,
        ;
        acc = acc + keys[i] as u128;
        i = i + 1;
    }
    assert(ints_of_u64(keys@).subrange(0, keys.len() as int) =~= ints_of_u64(keys@));
    acc
}

/// The position of the first key whose running total exceeds `draw`
/// (the weighted random choice of `Pfrd`, given the random number).
pub fn index_by_weight(keys: &[u64], draw: u128) -> (r: usize)
    requires
        draw < total(ints_of_u64(keys@)),
    ensures
        r == weighted_index(ints_of_u64(keys@), draw as int),
        r < keys.len(),
{
    let ghost s = ints_of_u64(keys@);
    proof {
        lemma_weighted_index(s, draw as int);
    }
    let mut i: usize = 0;
    let mut rem: u128 = draw;
    assert(s.subrange(0, s.len() as int) =~= s);
    while i < keys.len()
        invariant
            i <= keys.len(),
            s == ints_of_u64(keys@),
            weighted_index(s, draw as int) == i + weighted_index(
                s.subrange(i as int, s.len() as int),
                rem as int,
            ),
            0 <= weighted_index(s, draw as int) < s.len(),
        decreases keys.len() - i,
    {
        let ghost t = s.subrange(i as int, s.len() as int);
        assert(t[0] == keys@[i as int] as int);
        if rem < keys[i] as u128 {
            return i;
        }
        assert(t.subrange(1, t.len() as int) =~= s.subrange(i + 1, s.len() as int));
        rem = rem - keys[i] as u128;
        i = i + 1;
    }
    assert(s.subrange(i as int, s.len() as int) =~= Seq::<int>::empty());
    i
}

/// `rand::rng().random_range(0..n)`: a random number below `n`. The thread-local
/// generator of `rand` decides it, so nothing is stated of it but its range.
#[verifier::external_body]
pub(crate) fn random_below(n: u128) -> (r: u128)
    requires
        n > 0,
    ensures
        r < n,
{
    rand::rng().random_range(0..n)
}

// ---------------------------------------------------------------------------
// Create policies
// ---------------------------------------------------------------------------
/// What the create policy learns of one branch before it decides.
#[derive(Debug, Clone, Copy)]
pub struct CreateRow {
    /// Position of the branch in the pool.
    pub index: usize,
    /// Whether the branch admits new files (it is `RW`).
    pub can_create: bool,
    /// Available bytes on the branch, if they could be read.
    pub available: Option<u64>,
    /// Free bytes the branch must keep.
    pub minfree: u64,
    /// Whether the path already exists on the branch (read for path-preserving policies).
    pub has_path: bool,
    /// Bytes used on the branch (read for `Lus`).
    pub used: u64,
    /// Used percentage of the branch, as `Lup` compares it (read for `Lup`).
    pub used_percent: i64,
}

/// A branch may receive a new file when it is `RW`, its available space could be
/// read, and it is at least the branch's minimum free space.
pub open spec fn eligible(r: CreateRow) -> bool {
    r.can_create && r.available is Some && r.available.unwrap() >= r.minfree
}

/// The eligible rows, in order.
pub open spec fn eligible_rows(rows: Seq<CreateRow>) -> Seq<CreateRow>
    decreases rows.len(),
{
    if rows.len() == 0 {
        seq![]
    } else {
        let p = eligible_rows(rows.drop_last());
        if eligible(rows.last()) {
            p.push(rows.last())
        } else {
            p
        }
    }
}

/// The rows where the path exists, in order.
pub open spec fn rows_with_path(rows: Seq<CreateRow>) -> Seq<CreateRow>
    decreases rows.len(),
{
    if rows.len() == 0 {
        seq![]
    } else {
        let p = rows_with_path(rows.drop_last());
        if rows.last().has_path {
            p.push(rows.last())
        } else {
            p
        }
    }
}

/// The branches a create policy chooses among: the eligible ones; for a
/// path-preserving policy given a path that exists on some eligible branch, only those.
pub open spec fn candidates(policy: Policy, rows: Seq<CreateRow>, path_given: bool) -> Seq<
    CreateRow,
> {
    let e = eligible_rows(rows);
    if is_ep(policy) && path_given && rows_with_path(e).len() > 0 {
        rows_with_path(e)
    } else {
        e
    }
}

pub open spec fn avail_keys(c: Seq<CreateRow>) -> Seq<int> {
    c.map_values(|r: CreateRow| r.available.unwrap() as int)
}

pub open spec fn used_keys(c: Seq<CreateRow>) -> Seq<int> {
    c.map_values(|r: CreateRow| r.used as int)
}

pub open spec fn percent_keys(c: Seq<CreateRow>) -> Seq<int> {
    c.map_values(|r: CreateRow| r.used_percent as int)
}

/// How many random outcomes the pick needs (0 when it needs none).
pub open spec fn draw_range(policy: Policy, c: Seq<CreateRow>) -> nat {
    match pick_of(policy) {
        Pick::Weighted => total(avail_keys(c)) as nat,
        Pick::Uniform => c.len(),
        _ => 0,
    }
}

/// The position, among the candidates, of the one picked, given the random number.
pub open spec fn pick_position(policy: Policy, c: Seq<CreateRow>, draw: int) -> int {
    match pick_of(policy) {
        Pick::First => 0,
        Pick::MostFree => last_max_index(avail_keys(c)),
        Pick::LeastFree => first_min_index(avail_keys(c)),
        Pick::Weighted => if total(avail_keys(c)) == 0 {
            0
        } else {
            weighted_index(avail_keys(c), draw)
        },
        Pick::Uniform => draw,
        Pick::LeastUsed => first_min_index(used_keys(c)),
        Pick::LeastUsedPercent => first_min_index(percent_keys(c)),
    }
}

/// The branch a create policy chooses, given what it learnt of each branch and the
/// random number; `None` when no branch is eligible.
pub open spec fn create_choice(
    policy: Policy,
    rows: Seq<CreateRow>,
    path_given: bool,
    draw: int,
) -> Option<usize> {
    let c = candidates(policy, rows, path_given);
    if c.len() == 0 {
        None
    } else {
        Some(c[pick_position(policy, c, draw)].index)
    }
}

proof fn lemma_eligible_rows(rows: Seq<CreateRow>)
    ensures
        eligible_rows(rows).len() <= rows.len(),
        forall|k: int|
            0 <= k < eligible_rows(rows).len() ==> eligible(#[trigger] eligible_rows(rows)[k])
                && rows.contains(eligible_rows(rows)[k]),
    decreases rows.len(),
{
    if rows.len() > 0 {
        lemma_eligible_rows(rows.drop_last());
        let p = eligible_rows(rows.drop_last());
        assert forall|k: int| 0 <= k < eligible_rows(rows).len() implies eligible(
            #[trigger] eligible_rows(rows)[k],
        ) && rows.contains(eligible_rows(rows)[k]) by {
            if k < p.len() {
                let x = p[k];
                assert(rows.drop_last().contains(x));
                let w = choose|w: int| 0 <= w < rows.drop_last().len() && rows.drop_last()[w] == x;
                assert(rows[w] == x);
            } else {
                assert(rows[rows.len() - 1] == rows.last());
            }
        }
    }
}

proof fn lemma_rows_with_path(rows: Seq<CreateRow>)
    ensures
        rows_with_path(rows).len() <= rows.len(),
        forall|k: int|
            0 <= k < rows_with_path(rows).len() ==> rows.contains(
                #[trigger] rows_with_path(rows)[k],
            ),
    decreases rows.len(),
{
    if rows.len() > 0 {
        lemma_rows_with_path(rows.drop_last());
        let p = rows_with_path(rows.drop_last());
        assert forall|k: int| 0 <= k < rows_with_path(rows).len() implies rows.contains(
            #[trigger] rows_with_path(rows)[k],
        ) by {
            if k < p.len() {
                let x = p[k];
                assert(rows.drop_last().contains(x));
                let w = choose|w: int| 0 <= w < rows.drop_last().len() && rows.drop_last()[w] == x;
                assert(rows[w] == x);
            } else {
                assert(rows[rows.len() - 1] == rows.last());
            }
        }
    }
}

proof fn lemma_no_eligible(rows: Seq<CreateRow>)
    requires
        forall|i: int| 0 <= i < rows.len() ==> !(#[trigger] rows[i]).can_create,
    ensures
        eligible_rows(rows).len() == 0,
    decreases rows.len(),
{
    if rows.len() > 0 {
        lemma_no_eligible(rows.drop_last());
        assert(!rows[rows.len() - 1].can_create);
    }
}

/// The picked position lies among the candidates.
proof fn lemma_pick_position(policy: Policy, c: Seq<CreateRow>, draw: int)
    requires
        c.len() > 0,
        forall|k: int| 0 <= k < c.len() ==> (#[trigger] c[k]).available is Some,
        draw_range(policy, c) > 0 ==> 0 <= draw < draw_range(policy, c),
    ensures
        0 <= pick_position(policy, c, draw) < c.len(),
{
    match pick_of(policy) {
        Pick::First => {},
        Pick::MostFree => lemma_last_max_index(avail_keys(c)),
        Pick::LeastFree => lemma_first_min_index(avail_keys(c)),
        Pick::Weighted => {
            if total(avail_keys(c)) != 0 {
                lemma_total_nonneg(avail_keys(c));
                lemma_weighted_index(avail_keys(c), draw);
            }
        },
        Pick::Uniform => {},
        Pick::LeastUsed => lemma_first_min_index(used_keys(c)),
        Pick::LeastUsedPercent => lemma_first_min_index(percent_keys(c)),
    }
}

proof fn lemma_total_nonneg(s: Seq<int>)
    requires
        forall|j: int| 0 <= j < s.len() ==> s[j] >= 0,
    ensures
        total(s) >= 0,
    decreases s.len(),
{
    if s.len() > 0 {
        lemma_total_nonneg(s.drop_last());
    }
}

/// Every candidate is an eligible row.
pub proof fn lemma_candidates_eligible(policy: Policy, rows: Seq<CreateRow>, path_given: bool)
    ensures
        forall|k: int|
            0 <= k < candidates(policy, rows, path_given).len() ==> eligible(
                #[trigger] candidates(policy, rows, path_given)[k],
            ) && rows.contains(candidates(policy, rows, path_given)[k]),
{
    lemma_eligible_rows(rows);
    let e = eligible_rows(rows);
    lemma_rows_with_path(e);
    let c = candidates(policy, rows, path_given);
    assert forall|k: int| 0 <= k < c.len() implies eligible(#[trigger] c[k]) && rows.contains(
        c[k],
    ) by {
        if is_ep(policy) && path_given && rows_with_path(e).len() > 0 {
            assert(e.contains(c[k]));
            let w = choose|w: int| 0 <= w < e.len() && e[w] == c[k];
            assert(eligible(e[w]) && rows.contains(e[w]));
        }
    }
}

/// Rows `0..i` kept by `eligible_rows`, built by a loop.
fn filter_eligible(rows: &[CreateRow]) -> (r: Vec<CreateRow>)
    ensures
        r@ == eligible_rows(rows@),
{
    let mut out: Vec<CreateRow> = Vec::new();
    let mut i: usize = 0;
    assert(rows@.subrange(0, 0) =~= Seq::<CreateRow>::empty());
    while i < rows.len()
        invariant
            i <= rows.len(),
            out@ == eligible_rows(rows@.subrange(0, i as int)),
        decreases rows.len() - i,
    {
        let ghost cur = rows@.subrange(0, i + 1);
        assert(cur.drop_last() =~= rows@.subrange(0, i as int));
        assert(cur.last() == rows@[i as int]);
        let r = rows[i];
        let ok = match r.available {
            Some(a) => r.can_create && a >= r.minfree,
            None => false,
        };
        if ok {
            out.push(r);
        }
        i = i + 1;
    }
    assert(rows@.subrange(0, rows.len() as int) =~= rows@);
    out
}

fn filter_with_path(rows: &[CreateRow]) -> (r: Vec<CreateRow>)
    ensures
        r@ == rows_with_path(rows@),
{
    let mut out: Vec<CreateRow> = Vec::new();
    let mut i: usize = 0;
    assert(rows@.subrange(0, 0) =~= Seq::<CreateRow>::empty());
    while i < rows.len()
        invariant
            i <= rows.len(),
            out@ == rows_with_path(rows@.subrange(0, i as int)),
        decreases rows.len() - i,
    {
        let ghost cur = rows@.subrange(0, i + 1);
        assert(cur.drop_last() =~= rows@.subrange(0, i as int));
        assert(cur.last() == rows@[i as int]);
        if rows[i].has_path {
            out.push(rows[i]);
        }
        i = i + 1;
    }
    assert(rows@.subrange(0, rows.len() as int) =~= rows@);
    out
}

/// The candidates of a create policy (see `candidates`).
pub fn create_candidates(policy: Policy, rows: &[CreateRow], path_given: bool) -> (r: Vec<
    CreateRow,
>)
    ensures
        r@ == candidates(policy, rows@, path_given),
{
    let e = filter_eligible(rows);
    if policy.is_path_preserving() && path_given {
        let w = filter_with_path(e.as_slice());
        if w.len() > 0 {
            return w;
        }
    }
    e
}

/// How many random outcomes the pick among these candidates needs (see `draw_range`).
pub fn create_draw_range(policy: Policy, c: &[CreateRow]) -> (r: u128)
    requires
        forall|k: int| 0 <= k < c@.len() ==> (#[trigger] c@[k]).available is Some,
    ensures
        r == draw_range(policy, c@),
{
    match policy.pick() {
        Pick::Weighted => {
            let keys = avail_vec(c);
            sum_of(keys.as_slice())
        },
        Pick::Uniform => c.len() as u128,
        _ => 0,
    }
}

fn avail_vec(c: &[CreateRow]) -> (r: Vec<u64>)
    requires
        forall|k: int| 0 <= k < c@.len() ==> (#[trigger] c@[k]).available is Some,
    ensures
        ints_of_u64(r@) == avail_keys(c@),
        r@.len() == c@.len(),
{
    let mut out: Vec<u64> = Vec::new();
    let mut i: usize = 0;
    while i < c.len()
        invariant
            i <= c.len(),
            forall|k: int| 0 <= k < c@.len() ==> (#[trigger] c@[k]).available is Some,
            out@.len() == i,
            forall|k: int| 0 <= k < i ==> out@[k] == (#[trigger] c@[k]).available.unwrap(),
        decreases c.len() - i,
    {
        assert(c@[i as int].available is Some);
        match c[i].available {
            Some(a) => out.push(a),
            None => out.push(0),
        }
        i = i + 1;
    }
    assert(ints_of_u64(out@) =~= avail_keys(c@));
    out
}

fn used_vec(c: &[CreateRow]) -> (r: Vec<i128>)
    ensures
        ints_of_i128(r@) == used_keys(c@),
        r@.len() == c@.len(),
{
    let mut out: Vec<i128> = Vec::new();
    let mut i: usize = 0;
    while i < c.len()
        invariant
            i <= c.len(),
            out@.len() == i,
            forall|k: int| 0 <= k < i ==> out@[k] == (#[trigger] c@[k]).used as i128,
        decreases c.len() - i,
    {
        out.push(c[i].used as i128);
        i = i + 1;
    }
    assert(ints_of_i128(out@) =~= used_keys(c@));
    out
}

fn percent_vec(c: &[CreateRow]) -> (r: Vec<i128>)
    ensures
        ints_of_i128(r@) == percent_keys(c@),
        r@.len() == c@.len(),
{
    let mut out: Vec<i128> = Vec::new();
    let mut i: usize = 0;
    while i < c.len()
        invariant
            i <= c.len(),
            out@.len() == i,
            forall|k: int| 0 <= k < i ==> out@[k] == (#[trigger] c@[k]).used_percent as i128,
        decreases c.len() - i,
    {
        out.push(c[i].used_percent as i128);
        i = i + 1;
    }
    assert(ints_of_i128(out@) =~= percent_keys(c@));
    out
}

/// The position among the candidates of the one picked (see `pick_position`).
pub fn pick_among(policy: Policy, c: &[CreateRow], draw: u128) -> (r: usize)
    requires
        c.len() > 0,
        forall|k: int| 0 <= k < c@.len() ==> (#[trigger] c@[k]).available is Some,
        draw_range(policy, c@) > 0 ==> draw < draw_range(policy, c@),
    ensures
        r == pick_position(policy, c@, draw as int),
        r < c.len(),
{
    match policy.pick() {
        Pick::First => 0,
        Pick::MostFree => {
            let keys = avail_vec(c);
            index_of_most(keys.as_slice())
        },
        Pick::LeastFree => {
            let keys = avail_vec(c);
            let mut wide: Vec<i128> = Vec::new();
            let mut i: usize = 0;
            while i < keys.len()
                invariant
                    i <= keys.len(),
                    wide@.len() == i,
                    forall|k: int| 0 <= k < i ==> wide@[k] == keys@[k] as i128,
                decreases keys.len() - i,
            {
                wide.push(keys[i] as i128);
                i = i + 1;
            }
            assert(ints_of_i128(wide@) =~= ints_of_u64(keys@));
            index_of_least(wide.as_slice())
        },
        Pick::Weighted => {
            let keys = avail_vec(c);
            let t = sum_of(keys.as_slice());
            if t == 0 {
                0
            } else {
                index_by_weight(keys.as_slice(), draw)
            }
        },
        Pick::Uniform => draw as usize,
        Pick::LeastUsed => {
            let keys = used_vec(c);
            index_of_least(keys.as_slice())
        },
        Pick::LeastUsedPercent => {
            let keys = percent_vec(c);
            index_of_least(keys.as_slice())
        },
    }
}

/// The branch a create policy chooses (see `create_choice`), given what was learnt of
/// each branch and the random number.
pub fn choose_create(policy: Policy, rows: &[CreateRow], path_given: bool, draw: u128) -> (r:
    Option<usize>)
    requires
        draw_range(policy, candidates(policy, rows@, path_given)) > 0 ==> draw < draw_range(
            policy,
            candidates(policy, rows@, path_given),
        ),
    ensures
        r == create_choice(policy, rows@, path_given, draw as int),
{
    let c = create_candidates(policy, rows, path_given);
    if c.len() == 0 {
        return None;
    }
    proof {
        lemma_candidates_eligible(policy, rows@, path_given);
    }
    let k = pick_among(policy, c.as_slice(), draw);
    Some(c[k].index)
}

/// The minimum free space that applies to a branch: its own, when it is written and
/// parses, else the pool's.
pub open spec fn branch_minfree(b: Branch, default: u64) -> nat {
    match opt_view(b.minfreespace) {
        None => default as nat,
        Some(s) => match parse_size_spec(s) {
            Some(v) => v,
            None => default as nat,
        },
    }
}

/// The minimum free space that applies to a branch (see `branch_minfree`).
pub fn minfree_of(b: &Branch, default: u64) -> (r: u64)
    ensures
        r as nat == branch_minfree(*b, default),
{
    match &b.minfreespace {
        None => default,
        Some(s) => match parse_size(s.as_str()) {
            Ok(v) => v,
            Err(_) => default,
        },
    }
}

/// The path of `rel` under `base`, as `Path::join` forms it: an absolute `rel`
/// replaces `base`; otherwise a `/` separates the two unless `base` is empty or
/// already ends with one.
pub open spec fn path_join(base: Seq<char>, rel: Seq<char>) -> Seq<char> {
    if rel.len() > 0 && rel[0] == '/' {
        rel
    } else if base.len() == 0 || base[base.len() - 1] == '/' {
        base + rel
    } else {
        base + seq!['/'] + rel
    }
}

/// The path of `rel` under `base` (see `path_join`).
pub fn join_path(base: &str, rel: &str) -> (r: String)
    ensures
        r@ == path_join(base@, rel@),
{
    let b = to_chars(base);
    let r = to_chars(rel);
    let mut out = crate::text::string_of(b.as_slice());
    if r.len() > 0 && r[0] == '/' {
        return crate::text::string_of(r.as_slice());
    }
    if !(b.len() == 0 || b[b.len() - 1] == '/') {
        crate::text::push_char(&mut out, '/');
    }
    let tail = crate::text::string_of(r.as_slice());
    let res = join2(out.as_str(), tail.as_str());
    assert(b@.len() == 0 || b@[b@.len() - 1] == '/' ==> res@ =~= base@ + rel@);
    assert(!(b@.len() == 0 || b@[b@.len() - 1] == '/') ==> res@ =~= base@ + seq!['/'] + rel@);
    res
}

/// Whether `rel` exists under the branch.
pub(crate) fn exists_under(b: &Branch, rel: &str) -> bool {
    let p = join_path(b.path.as_str(), rel);
    path_exists(p.as_str())
}

/// The used percentage of a branch as `Lup` compares it: `100 - 100 * available /
/// total` as binary64 arithmetic computes it, truncated toward zero (see
/// `used_percent_truncated`); 100 when the total is 0; the greatest `i64` when either
/// figure cannot be read.
pub open spec fn percent_key(total: Option<u64>, available: Option<u64>) -> int {
    match (total, available) {
        (Some(t), Some(a)) => if t == 0 {
            100
        } else {
            used_percent_truncated(a as nat, t as nat)
        },
        _ => i64::MAX as int,
    }
}

fn percent_key_of(total: Option<u64>, available: Option<u64>) -> (r: i64)
    ensures
        r as int == percent_key(total, available),
{
    match (total, available) {
        (Some(t), Some(a)) => {
            if t == 0 {
                100
            } else {
                used_percent_key(a, t)
            }
        },
        _ => i64::MAX,
    }
}

/// Selects branches for new files.
pub struct CreatePolicy<'a> {
    /// Branches to select from.
    pub branches: &'a [Branch],
    /// Minimum free space a branch must keep, unless it sets its own.
    pub minfreespace: u64,
}

impl<'a> CreatePolicy<'a> {
    pub fn new(branches: &'a [Branch], minfreespace: u64) -> (r: CreatePolicy<'a>)
        ensures
            r.branches@ == branches@,
            r.minfreespace == minfreespace,
    {
        CreatePolicy { branches, minfreespace }
    }

    /// What the policy learns of each branch: mode, available space and minimum free
    /// space; whether the path exists (path-preserving policies given a path) and used
    /// space or percentage (`Lus`, `Lup`) are read for the eligible branches only.
    fn survey(&self, policy: Policy, rel: Option<&str>) -> (r: Vec<CreateRow>)
        ensures
            r@.len() == self.branches@.len(),
            forall|i: int|
                0 <= i < r@.len() ==> (#[trigger] r@[i]).index == i && r@[i].can_create == (
                self.branches@[i].mode == BranchMode::RW) && r@[i].minfree == branch_minfree(
                    self.branches@[i],
                    self.minfreespace,
                ),
    {
        let mut rows: Vec<CreateRow> = Vec::new();
        let mut i: usize = 0;
        while i < self.branches.len()
            invariant
                i <= self.branches.len(),
                rows@.len() == i,
                forall|k: int|
                    0 <= k < i ==> (#[trigger] rows@[k]).index == k && rows@[k].can_create == (
                    self.branches@[k].mode == BranchMode::RW) && rows@[k].minfree
                        == branch_minfree(self.branches@[k], self.minfreespace),
            decreases self.branches.len() - i,
        {
            let b = &self.branches[i];
            let can_create = b.can_create();
            let minfree = minfree_of(b, self.minfreespace);
            let available = if can_create {
                match b.available_space() {
                    Ok(a) => Some(a),
                    Err(_) => None,
                }
            } else {
                None
            };
            let is_eligible = match available {
                Some(a) => a >= minfree,
                None => false,
            };
            let has_path = match rel {
                Some(p) => if is_eligible && policy.is_path_preserving() {
                    exists_under(b, p)
                } else {
                    false
                },
                None => false,
            };
            let used = if is_eligible && policy.pick() == Pick::LeastUsed {
                match b.used_space() {
                    Ok(u) => u,
                    Err(_) => 0,
                }
            } else {
                0
            };
            let used_percent = if is_eligible && policy.pick() == Pick::LeastUsedPercent {
                let t = match b.total_space() {
                    Ok(t) => Some(t),
                    Err(_) => None,
                };
                let a = match b.available_space() {
                    Ok(a) => Some(a),
                    Err(_) => None,
                };
                percent_key_of(t, a)
            } else {
                0
            };
            rows.push(
                CreateRow { index: i, can_create, available, minfree, has_path, used, used_percent },
            );
            i = i + 1;
        }
        rows
    }

    /// Selects the branch for a new file at `relative_path` (see `create_choice`): the
    /// policy chooses among the eligible branches, reading available space, existence of
    /// the path and used space from the filesystem and a random number from `rand`.
    pub fn select(&self, policy: Policy, relative_path: Option<&str>) -> (r: Result<
        &'a Branch,
        NofsError,
    >)
        ensures
            match r {
                Ok(b) => exists|i: int|
                    0 <= i < self.branches@.len() && *b == self.branches@[i]
                        && self.branches@[i].mode == BranchMode::RW,
                Err(e) => e is NoSuitableBranch,
            },
            (forall|i: int|
                0 <= i < self.branches@.len() ==> self.branches@[i].mode != BranchMode::RW)
                ==> r is Err,
    {
        let rows = self.survey(policy, relative_path);
        let c = create_candidates(policy, rows.as_slice(), relative_path.is_some());
        proof {
            lemma_candidates_eligible(policy, rows@, relative_path.is_some());
        }
        let range = create_draw_range(policy, c.as_slice());
        let draw = if range > 0 {
            random_below(range)
        } else {
            0
        };
        match choose_create(policy, rows.as_slice(), relative_path.is_some(), draw) {
            Some(idx) => {
                proof {
                    let cs = candidates(policy, rows@, relative_path.is_some());
                    lemma_pick_position(policy, cs, draw as int);
                    let k = pick_position(policy, cs, draw as int);
                    assert(rows@.contains(cs[k]));
                    let w = choose|w: int| 0 <= w < rows@.len() && rows@[w] == cs[k];
                    assert(rows@[w].index == w);
                    assert(eligible(cs[k]));
                }
                Ok(&self.branches[idx])
            },
            None => {
                proof {
                    if forall|i: int|
                        0 <= i < self.branches@.len() ==> self.branches@[i].mode
                            != BranchMode::RW {
                        assert(forall|i: int| 0 <= i < rows@.len() ==> !(#[trigger] rows@[i]).can_create);
                        lemma_no_eligible(rows@);
                    }
                }
                Err(NofsError::NoSuitableBranch)
            },
        }
    }
}


// ---------------------------------------------------------------------------
// Search policies
// ---------------------------------------------------------------------------
/// What a search policy learns of one branch.
#[derive(Debug, Clone, Copy)]
pub struct SearchRow {
    /// Whether the path exists on the branch.
    pub exists: bool,
    /// Available bytes on the branch, if read (for `Mfs` and `Lfs`, where the path exists).
    pub available: Option<u64>,
}

/// Why a search found no branch.
#[derive(Debug, Clone, Copy, PartialEq, Eq, Structural)]
pub enum SearchMiss {
    /// The path exists on no (suitable) branch.
    NotFound,
    /// The pool has no branch at all.
    NoBranch,
}

/// The positions of the rows where the path exists, in order.
pub open spec fn present_positions(rows: Seq<bool>) -> Seq<int>
    decreases rows.len(),
{
    if rows.len() == 0 {
        seq![]
    } else {
        let p = present_positions(rows.drop_last());
        if rows.last() {
            p.push(rows.len() - 1)
        } else {
            p
        }
    }
}

/// The positions of the rows where the path exists and the available space was read.
pub open spec fn spaced_positions(rows: Seq<SearchRow>) -> Seq<int>
    decreases rows.len(),
{
    if rows.len() == 0 {
        seq![]
    } else {
        let p = spaced_positions(rows.drop_last());
        if rows.last().exists && rows.last().available is Some {
            p.push(rows.len() - 1)
        } else {
            p
        }
    }
}

pub open spec fn exists_flags(rows: Seq<SearchRow>) -> Seq<bool> {
    rows.map_values(|r: SearchRow| r.exists)
}

pub open spec fn spaced_keys(rows: Seq<SearchRow>) -> Seq<int> {
    spaced_positions(rows).map_values(|i: int| rows[i].available.unwrap() as int)
}

/// The branch a search policy finds, given what it learnt of each branch:
/// `All` and `EpAll` take the first branch of the pool; `Mfs` (`Lfs`) the branch with
/// the most (least) available space among those holding the path, the last (first)
/// of equals; every other policy the first branch holding the path.
pub open spec fn search_choice(policy: Policy, rows: Seq<SearchRow>) -> Result<int, SearchMiss> {
    match policy {
        Policy::All | Policy::EpAll => if rows.len() > 0 {
            Ok(0)
        } else {
            Err(SearchMiss::NoBranch)
        },
        Policy::Mfs => if spaced_positions(rows).len() == 0 {
            Err(SearchMiss::NotFound)
        } else {
            Ok(spaced_positions(rows)[last_max_index(spaced_keys(rows))])
        },
        Policy::Lfs => if spaced_positions(rows).len() == 0 {
            Err(SearchMiss::NotFound)
        } else {
            Ok(spaced_positions(rows)[first_min_index(spaced_keys(rows))])
        },
        _ => if present_positions(exists_flags(rows)).len() == 0 {
            Err(SearchMiss::NotFound)
        } else {
            Ok(present_positions(exists_flags(rows))[0])
        },
    }
}

pub(crate) proof fn lemma_present_positions(rows: Seq<bool>)
    ensures
        forall|k: int|
            0 <= k < present_positions(rows).len() ==> 0 <= #[trigger] present_positions(rows)[k]
                < rows.len() && rows[present_positions(rows)[k]],
        forall|k: int, l: int|
            0 <= k < l < present_positions(rows).len() ==> present_positions(rows)[k]
                < present_positions(rows)[l],
        forall|i: int| 0 <= i < rows.len() && rows[i] ==> present_positions(rows).contains(i),
    decreases rows.len(),
{
    if rows.len() > 0 {
        let q = rows.drop_last();
        lemma_present_positions(q);
        let p = present_positions(q);
        assert forall|i: int| 0 <= i < rows.len() && rows[i] implies present_positions(
            rows,
        ).contains(i) by {
            if i < rows.len() - 1 {
                assert(q[i] == rows[i]);
                let w = choose|w: int| 0 <= w < p.len() && p[w] == i;
                assert(present_positions(rows)[w] == i);
            } else {
                assert(present_positions(rows)[present_positions(rows).len() - 1] == i);
            }
        }
        assert forall|k: int|
            0 <= k < present_positions(rows).len() implies 0 <= #[trigger] present_positions(
            rows,
        )[k] < rows.len() && rows[present_positions(rows)[k]] by {
            if k < p.len() {
                assert(q[p[k]] == rows[p[k]]);
            }
        }
    }
}

proof fn lemma_spaced_positions(rows: Seq<SearchRow>)
    ensures
        forall|k: int|
            0 <= k < spaced_positions(rows).len() ==> 0 <= #[trigger] spaced_positions(rows)[k]
                < rows.len() && rows[spaced_positions(rows)[k]].exists && rows[spaced_positions(
                rows,
            )[k]].available is Some,
    decreases rows.len(),
{
    if rows.len() > 0 {
        let q = rows.drop_last();
        lemma_spaced_positions(q);
        let p = spaced_positions(q);
        assert forall|k: int|
            0 <= k < spaced_positions(rows).len() implies 0 <= #[trigger] spaced_positions(
            rows,
        )[k] < rows.len() && rows[spaced_positions(rows)[k]].exists && rows[spaced_positions(
            rows,
        )[k]].available is Some by {
            if k < p.len() {
                assert(q[p[k]] == rows[p[k]]);
            }
        }
    }
}

/// The positions of the `true` flags, in order.
pub fn present_indices(flags: &[bool]) -> (r: Vec<usize>)
    ensures
        r@.map_values(|i: usize| i as int) == present_positions(flags@),
{
    let mut out: Vec<usize> = Vec::new();
    let mut i: usize = 0;
    assert(flags@.subrange(0, 0) =~= Seq::<bool>::empty());
    assert(out@.map_values(|i: usize| i as int) =~= Seq::<int>::empty());
    while i < flags.len()
        invariant
            i <= flags.len(),
            out@.map_values(|i: usize| i as int) == present_positions(
                flags@.subrange(0, i as int),
            ),
        decreases flags.len() - i,
    {
        let ghost cur = flags@.subrange(0, i + 1);
        assert(cur.drop_last() =~= flags@.subrange(0, i as int));
        assert(cur.last() == flags@[i as int]);
        if flags[i] {
            let ghost before = out@;
            out.push(i);
            assert(out@.map_values(|i: usize| i as int) =~= before.map_values(|i: usize| i as int).push(i as int));
        }
        i = i + 1;
    }
    assert(flags@.subrange(0, flags.len() as int) =~= flags@);
    out
}

fn spaced_indices(rows: &[SearchRow]) -> (r: (Vec<usize>, Vec<u64>))
    ensures
        r.0@.map_values(|i: usize| i as int) == spaced_positions(rows@),
        ints_of_u64(r.1@) == spaced_keys(rows@),
        r.0@.len() == r.1@.len(),
{
    let mut out: Vec<usize> = Vec::new();
    let mut keys: Vec<u64> = Vec::new();
    let mut i: usize = 0;
    assert(rows@.subrange(0, 0) =~= Seq::<SearchRow>::empty());
    assert(out@.map_values(|i: usize| i as int) =~= Seq::<int>::empty());
    while i < rows.len()
        invariant
            i <= rows.len(),
            out@.map_values(|i: usize| i as int) == spaced_positions(rows@.subrange(0, i as int)),
            out@.len() == keys@.len(),
            forall|k: int|
                0 <= k < out@.len() ==> (#[trigger] out@[k]) < i && keys@[k]
                    == rows@[out@[k] as int].available.unwrap(),
        decreases rows.len() - i,
    {
        let ghost cur = rows@.subrange(0, i + 1);
        assert(cur.drop_last() =~= rows@.subrange(0, i as int));
        assert(cur.last() == rows@[i as int]);
        if rows[i].exists {
            match rows[i].available {
                Some(a) => {
                    let ghost before = out@;
                    out.push(i);
                    keys.push(a);
                    assert(out@.map_values(|i: usize| i as int) =~= before.map_values(
                        |i: usize| i as int,
                    ).push(i as int));
                },
                None => {},
            }
        }
        i = i + 1;
    }
    assert(rows@.subrange(0, rows.len() as int) =~= rows@);
    proof {
        let sp = spaced_positions(rows@);
        assert(sp.len() == out@.len());
        assert forall|k: int| 0 <= k < out@.len() implies ints_of_u64(keys@)[k] == spaced_keys(
            rows@,
        )[k] by {
            assert(sp[k] == out@[k] as int);
        }
        assert(ints_of_u64(keys@) =~= spaced_keys(rows@));
    }
    (out, keys)
}

/// The branch a search policy finds (see `search_choice`).
pub fn choose_search(policy: Policy, rows: &[SearchRow]) -> (r: Result<usize, SearchMiss>)
    ensures
        match r {
            Ok(i) => search_choice(policy, rows@) == Ok::<int, SearchMiss>(i as int),
            Err(m) => search_choice(policy, rows@) == Err::<int, SearchMiss>(m),
        },
{
    match policy {
        Policy::All | Policy::EpAll => {
            if rows.len() > 0 {
                Ok(0)
            } else {
                Err(SearchMiss::NoBranch)
            }
        },
        Policy::Mfs | Policy::Lfs => {
            let (pos, keys) = spaced_indices(rows);
            if pos.len() == 0 {
                return Err(SearchMiss::NotFound);
            }
            let k = if policy == Policy::Mfs {
                index_of_most(keys.as_slice())
            } else {
                let mut wide: Vec<i128> = Vec::new();
                let mut i: usize = 0;
                while i < keys.len()
                    invariant
                        i <= keys.len(),
                        wide@.len() == i,
                        forall|j: int| 0 <= j < i ==> wide@[j] == keys@[j] as i128,
                    decreases keys.len() - i,
                {
                    wide.push(keys[i] as i128);
                    i = i + 1;
                }
                assert(ints_of_i128(wide@) =~= ints_of_u64(keys@));
                index_of_least(wide.as_slice())
            };
            assert(pos@.map_values(|i: usize| i as int)[k as int] == pos@[k as int] as int);
            Ok(pos[k])
        },
        _ => {
            let mut flags: Vec<bool> = Vec::new();
            let mut i: usize = 0;
            while i < rows.len()
                invariant
                    i <= rows.len(),
                    flags@.len() == i,
                    forall|j: int| 0 <= j < i ==> flags@[j] == (#[trigger] rows@[j]).exists,
                decreases rows.len() - i,
            {
                flags.push(rows[i].exists);
                i = i + 1;
            }
            assert(flags@ =~= exists_flags(rows@));
            let pos = present_indices(flags.as_slice());
            if pos.len() == 0 {
                return Err(SearchMiss::NotFound);
            }
            assert(pos@.map_values(|i: usize| i as int)[0] == pos@[0] as int);
            Ok(pos[0])
        },
    }
}

/// Locates existing files among branches.
pub struct SearchPolicy<'a> {
    /// Branches to search.
    pub branches: &'a [Branch],
}

impl<'a> SearchPolicy<'a> {
    pub fn new(branches: &'a [Branch]) -> (r: SearchPolicy<'a>)
        ensures
            r.branches@ == branches@,
    {
        SearchPolicy { branches }
    }

    /// What the policy learns of each branch: whether the path exists there and, for
    /// `Mfs` and `Lfs` where it does, the available space.
    fn survey(&self, policy: Policy, rel: &str) -> (r: Vec<SearchRow>)
        ensures
            r@.len() == self.branches@.len(),
    {
        let mut rows: Vec<SearchRow> = Vec::new();
        let mut i: usize = 0;
        while i < self.branches.len()
            invariant
                i <= self.branches.len(),
                rows@.len() == i,
            decreases self.branches.len() - i,
        {
            let b = &self.branches[i];
            let exists = exists_under(b, rel);
            let available = if exists && (policy == Policy::Mfs || policy == Policy::Lfs) {
                match b.available_space() {
                    Ok(a) => Some(a),
                    Err(_) => None,
                }
            } else {
                None
            };
            rows.push(SearchRow { exists, available });
            i = i + 1;
        }
        rows
    }

    /// Finds the branch for an operation on the existing path `relative_path`
    /// (see `search_choice`), reading existence and space from the filesystem.
    pub fn select(&self, policy: Policy, relative_path: &str) -> (r: Result<&'a Branch, NofsError>)
        ensures
            match r {
                Ok(b) => exists|i: int| 0 <= i < self.branches@.len() && *b == self.branches@[i],
                Err(e) => e is PathNotFound || e is NoSuitableBranch,
            },
            (policy is All || policy is EpAll) ==> match r {
                Ok(b) => self.branches@.len() > 0 && *b == self.branches@[0],
                Err(e) => self.branches@.len() == 0 && e is NoSuitableBranch,
            },
            self.branches@.len() == 0 ==> r is Err,
    {
        let rows = if policy == Policy::All || policy == Policy::EpAll {
            let mut v: Vec<SearchRow> = Vec::new();
            let mut i: usize = 0;
            while i < self.branches.len()
                invariant
                    i <= self.branches.len(),
                    v@.len() == i,
                decreases self.branches.len() - i,
            {
                v.push(SearchRow { exists: false, available: None });
                i = i + 1;
            }
            v
        } else {
            self.survey(policy, relative_path)
        };
        match choose_search(policy, rows.as_slice()) {
            Ok(i) => {
                proof {
                    lemma_spaced_positions(rows@);
                    lemma_present_positions(exists_flags(rows@));
                    if policy is Mfs {
                        lemma_last_max_index(spaced_keys(rows@));
                    } else if policy is Lfs {
                        lemma_first_min_index(spaced_keys(rows@));
                    }
                }
                Ok(&self.branches[i])
            },
            Err(SearchMiss::NoBranch) => Err(NofsError::NoSuitableBranch),
            Err(SearchMiss::NotFound) => Err(NofsError::PathNotFound(String::from_str(relative_path))),
        }
    }

    /// The positions of the branches where `relative_path` exists, in pool order.
    pub fn find_all_indices(&self, relative_path: &str) -> (r: Vec<usize>)
        ensures
            r@.len() <= self.branches@.len(),
            forall|k: int| 0 <= k < r@.len() ==> #[trigger] r@[k] < self.branches@.len(),
            forall|k: int, l: int| 0 <= k < l < r@.len() ==> r@[k] < r@[l],
    {
        let mut flags: Vec<bool> = Vec::new();
        let mut i: usize = 0;
        while i < self.branches.len()
            invariant
                i <= self.branches.len(),
                flags@.len() == i,
            decreases self.branches.len() - i,
        {
            flags.push(exists_under(&self.branches[i], relative_path));
            i = i + 1;
        }
        let idx = present_indices(flags.as_slice());
        proof {
            lemma_present_positions(flags@);
            lemma_present_len(flags@);
            let pp = present_positions(flags@);
            assert forall|k: int| 0 <= k < idx@.len() implies #[trigger] idx@[k] < self.branches@.len() by {
                assert(idx@.map_values(|i: usize| i as int)[k] == idx@[k] as int);
            }
            assert forall|k: int, l: int| 0 <= k < l < idx@.len() implies idx@[k] < idx@[l] by {
                assert(idx@.map_values(|i: usize| i as int)[k] == idx@[k] as int);
                assert(idx@.map_values(|i: usize| i as int)[l] == idx@[l] as int);
            }
        }
        idx
    }

    /// All the branches where `relative_path` exists, in pool order.
    pub fn find_all(&self, relative_path: &str) -> (r: Vec<&'a Branch>)
        ensures
            r@.len() <= self.branches@.len(),
            forall|k: int| 0 <= k < r@.len() ==> self.branches@.contains(*#[trigger] r@[k]),
            in_branch_order(r@.map_values(|b: &Branch| *b), self.branches@),
    {
        let idx = self.find_all_indices(relative_path);
        let mut out: Vec<&'a Branch> = Vec::new();
        let mut k: usize = 0;
        while k < idx.len()
            invariant
                k <= idx.len(),
                idx@.len() <= self.branches@.len(),
                forall|j: int| 0 <= j < idx@.len() ==> #[trigger] idx@[j] < self.branches@.len(),
                out@.len() == k,
                forall|j: int| 0 <= j < k ==> *out@[j] == self.branches@[#[trigger] idx@[j] as int],
            decreases idx.len() - k,
        {
            out.push(&self.branches[idx[k]]);
            k = k + 1;
        }
        assert forall|j: int| 0 <= j < out@.len() implies self.branches@.contains(
            *#[trigger] out@[j],
        ) by {
            let i = idx@[j] as int;
            assert(self.branches@[i] == *out@[j]);
        }
        let ghost positions = idx@.map_values(|i: usize| i as int);
        assert(positions.len() == out@.map_values(|b: &Branch| *b).len());
        assert forall|j: int| 0 <= j < positions.len() implies 0 <= #[trigger] positions[j]
            < self.branches@.len() && out@.map_values(|b: &Branch| *b)[j]
            == self.branches@[positions[j]] by {
            assert(positions[j] == idx@[j] as int);
        }
        assert forall|j: int, l: int| 0 <= j < l < positions.len() implies positions[j]
            < positions[l] by {
            assert(positions[j] == idx@[j] as int);
            assert(positions[l] == idx@[l] as int);
        }
        assert(in_branch_order(out@.map_values(|b: &Branch| *b), self.branches@));
        out
    }
}

/// The branches found are some of the pool's branches, in the pool's order, each once.
pub open spec fn in_branch_order(found: Seq<Branch>, bs: Seq<Branch>) -> bool {
    exists|positions: Seq<int>|
        positions.len() == found.len() && (forall|j: int, l: int|
            0 <= j < l < positions.len() ==> positions[j] < positions[l]) && (forall|j: int|
            0 <= j < positions.len() ==> 0 <= #[trigger] positions[j] < bs.len() && found[j]
                == bs[positions[j]])
}

proof fn lemma_present_len(rows: Seq<bool>)
    ensures
        present_positions(rows).len() <= rows.len(),
    decreases rows.len(),
{
    if rows.len() > 0 {
        lemma_present_len(rows.drop_last());
    }
}

/// Every eligible row is among the eligible rows.
proof fn lemma_eligible_rows_complete(rows: Seq<CreateRow>)
    ensures
        forall|i: int| 0 <= i < rows.len() && eligible(#[trigger] rows[i]) ==> eligible_rows(rows).contains(rows[i]),
    decreases rows.len(),
{
    if rows.len() > 0 {
        let q = rows.drop_last();
        lemma_eligible_rows_complete(q);
        assert forall|i: int| 0 <= i < rows.len() && eligible(#[trigger] rows[i]) implies eligible_rows(
            rows,
        ).contains(rows[i]) by {
            if i < rows.len() - 1 {
                assert(q[i] == rows[i]);
                let p = eligible_rows(q);
                let w = choose|w: int| 0 <= w < p.len() && p[w] == rows[i];
                if eligible(rows.last()) {
                    assert(eligible_rows(rows)[w] == rows[i]);
                } else {
                    assert(eligible_rows(rows) == p);
                }
            } else {
                assert(rows[i] == rows.last());
                let e = eligible_rows(rows);
                assert(e[e.len() - 1] == rows[i]);
            }
        }
    }
}

/// The rows with the path hold it, and every row holding it is among them.
proof fn lemma_rows_with_path_exact(rows: Seq<CreateRow>)
    ensures
        forall|k: int| 0 <= k < rows_with_path(rows).len() ==> (#[trigger] rows_with_path(rows)[k]).has_path,
        forall|i: int| 0 <= i < rows.len() && (#[trigger] rows[i]).has_path ==> rows_with_path(rows).contains(rows[i]),
    decreases rows.len(),
{
    if rows.len() > 0 {
        let q = rows.drop_last();
        lemma_rows_with_path_exact(q);
        let p = rows_with_path(q);
        assert forall|k: int| 0 <= k < rows_with_path(rows).len() implies (#[trigger] rows_with_path(
            rows,
        )[k]).has_path by {
            if k < p.len() {
                assert(rows_with_path(rows)[k] == p[k]);
            }
        }
        assert forall|i: int| 0 <= i < rows.len() && (#[trigger] rows[i]).has_path implies rows_with_path(
            rows,
        ).contains(rows[i]) by {
            if i < rows.len() - 1 {
                assert(q[i] == rows[i]);
                let w = choose|w: int| 0 <= w < p.len() && p[w] == rows[i];
                if rows.last().has_path {
                    assert(rows_with_path(rows)[w] == rows[i]);
                } else {
                    assert(rows_with_path(rows) == p);
                }
            } else {
                assert(rows[i] == rows.last());
                let e = rows_with_path(rows);
                assert(e[e.len() - 1] == rows[i]);
            }
        }
    }
}

/// What a create policy chooses. The candidates are the branches that are `RW`, whose
/// available space was read and is at least their minimum free space; for a
/// path-preserving policy given a path that some such branch holds, only those that
/// hold it. Without candidates there is no choice; otherwise the choice is one of them:
/// for `mfs`/`epmfs` one with the most available space, for `lfs` one with the least,
/// for `lus` one with the least used space, for `lup` one with the least used
/// percentage, and for `ff`, `all`, `epff` and `epall` the first candidate.
pub proof fn law_create_choice(policy: Policy, rows: Seq<CreateRow>, path_given: bool, draw: int)
    requires
        draw_range(policy, candidates(policy, rows, path_given)) > 0 ==> 0 <= draw < draw_range(
            policy,
            candidates(policy, rows, path_given),
        ),
    ensures
        ({
            let c = candidates(policy, rows, path_given);
            let usable = |r: CreateRow| r.can_create && r.available is Some && r.available.unwrap() >= r.minfree;
            let narrowed = (policy is EpMfs || policy is EpFf || policy is EpRand || policy is EpAll)
                && path_given && exists|i: int| 0 <= i < rows.len() && usable(rows[i]) && (#[trigger] rows[i]).has_path;
            &&& forall|k: int|
                0 <= k < c.len() ==> usable(#[trigger] c[k]) && rows.contains(c[k]) && (narrowed
                    ==> c[k].has_path)
            &&& forall|i: int|
                0 <= i < rows.len() && usable(#[trigger] rows[i]) && (narrowed ==> rows[i].has_path)
                    ==> c.contains(rows[i])
            &&& (c.len() == 0) == (create_choice(policy, rows, path_given, draw) is None)
            &&& c.len() > 0 ==> exists|k: int|
                0 <= k < c.len() && create_choice(policy, rows, path_given, draw) == Some(
                    (#[trigger] c[k]).index,
                ) && ((policy is Mfs || policy is EpMfs) ==> forall|j: int|
                    0 <= j < c.len() ==> (#[trigger] c[j]).available.unwrap() <= c[k].available.unwrap())
                    && (policy is Lfs ==> forall|j: int|
                    0 <= j < c.len() ==> c[k].available.unwrap() <= (#[trigger] c[j]).available.unwrap())
                    && (policy is Lus ==> forall|j: int|
                    0 <= j < c.len() ==> c[k].used <= (#[trigger] c[j]).used) && (policy is Lup
                    ==> forall|j: int| 0 <= j < c.len() ==> c[k].used_percent <= (#[trigger] c[j]).used_percent)
                    && ((policy is Ff || policy is All || policy is EpFf || policy is EpAll) ==> k == 0)
        }),
{
    let c = candidates(policy, rows, path_given);
    let e = eligible_rows(rows);
    lemma_candidates_eligible(policy, rows, path_given);
    lemma_eligible_rows(rows);
    lemma_eligible_rows_complete(rows);
    lemma_rows_with_path_exact(e);
    let usable = |r: CreateRow| r.can_create && r.available is Some && r.available.unwrap() >= r.minfree;
    let narrowed = (policy is EpMfs || policy is EpFf || policy is EpRand || policy is EpAll)
        && path_given && exists|i: int| 0 <= i < rows.len() && usable(rows[i]) && (#[trigger] rows[i]).has_path;
    assert(narrowed == (is_ep(policy) && path_given && rows_with_path(e).len() > 0)) by {
        if is_ep(policy) && path_given && rows_with_path(e).len() > 0 {
            let x = rows_with_path(e)[0];
            lemma_rows_with_path(e);
            assert(e.contains(x));
            let w = choose|w: int| 0 <= w < e.len() && e[w] == x;
            assert(rows.contains(e[w]) && eligible(e[w]));
            let i = choose|i: int| 0 <= i < rows.len() && rows[i] == e[w];
            assert(usable(rows[i]) && rows[i].has_path);
        }
        if narrowed {
            let i = choose|i: int| 0 <= i < rows.len() && usable(rows[i]) && (#[trigger] rows[i]).has_path;
            assert(eligible(rows[i]));
            assert(e.contains(rows[i]));
            let w = choose|w: int| 0 <= w < e.len() && e[w] == rows[i];
            assert(e[w].has_path);
            assert(rows_with_path(e).contains(e[w]));
        }
    }
    assert forall|k: int| 0 <= k < c.len() implies usable(#[trigger] c[k]) && rows.contains(c[k]) && (
    narrowed ==> c[k].has_path) by {
        assert(eligible(c[k]));
    }
    assert forall|i: int|
        0 <= i < rows.len() && usable(#[trigger] rows[i]) && (narrowed ==> rows[i].has_path) implies c.contains(
        rows[i],
    ) by {
        assert(eligible(rows[i]));
        assert(e.contains(rows[i]));
        if narrowed {
            let w = choose|w: int| 0 <= w < e.len() && e[w] == rows[i];
            assert(e[w].has_path);
        }
    }
    if c.len() > 0 {
        assert forall|k: int| 0 <= k < c.len() implies (#[trigger] c[k]).available is Some by {
            assert(eligible(c[k]));
        }
        lemma_pick_keys(policy, c, draw);
        let k = pick_position(policy, c, draw);
        assert(create_choice(policy, rows, path_given, draw) == Some(c[k].index));
    }
}

/// The picked candidate has the most available space for `mfs`/`epmfs`, the least for
/// `lfs`, the least used space for `lus`, the least used percentage for `lup`, and is
/// the first for `ff`, `all`, `epff` and `epall`.
#[verifier::spinoff_prover]
proof fn lemma_pick_keys(policy: Policy, c: Seq<CreateRow>, draw: int)
    requires
        c.len() > 0,
        forall|k: int| 0 <= k < c.len() ==> (#[trigger] c[k]).available is Some,
        draw_range(policy, c) > 0 ==> 0 <= draw < draw_range(policy, c),
    ensures
        0 <= pick_position(policy, c, draw) < c.len(),
        (policy is Mfs || policy is EpMfs) ==> forall|j: int|
            0 <= j < c.len() ==> (#[trigger] c[j]).available.unwrap() <= c[pick_position(
                policy,
                c,
                draw,
            )].available.unwrap(),
        policy is Lfs ==> forall|j: int|
            0 <= j < c.len() ==> c[pick_position(policy, c, draw)].available.unwrap() <= (
            #[trigger] c[j]).available.unwrap(),
        policy is Lus ==> forall|j: int|
            0 <= j < c.len() ==> c[pick_position(policy, c, draw)].used <= (#[trigger] c[j]).used,
        policy is Lup ==> forall|j: int|
            0 <= j < c.len() ==> c[pick_position(policy, c, draw)].used_percent <= (
            #[trigger] c[j]).used_percent,
        (policy is Ff || policy is All || policy is EpFf || policy is EpAll) ==> pick_position(
            policy,
            c,
            draw,
        ) == 0,
{
    lemma_pick_position(policy, c, draw);
    let k = pick_position(policy, c, draw);
    if policy is Mfs || policy is EpMfs {
        assert(pick_of(policy) == Pick::MostFree);
        assert(k == last_max_index(avail_keys(c)));
        lemma_last_max_index(avail_keys(c));
        assert forall|j: int| 0 <= j < c.len() implies (#[trigger] c[j]).available.unwrap()
            <= c[k].available.unwrap() by {
            assert(avail_keys(c)[j] == c[j].available.unwrap() as int);
            assert(avail_keys(c)[k] == c[k].available.unwrap() as int);
        }
    } else if policy is Lfs {
        assert(pick_of(policy) == Pick::LeastFree);
        assert(k == first_min_index(avail_keys(c)));
        lemma_first_min_index(avail_keys(c));
        assert forall|j: int| 0 <= j < c.len() implies c[k].available.unwrap() <= (
        #[trigger] c[j]).available.unwrap() by {
            assert(avail_keys(c)[j] == c[j].available.unwrap() as int);
            assert(avail_keys(c)[k] == c[k].available.unwrap() as int);
        }
    } else if policy is Lus {
        assert(pick_of(policy) == Pick::LeastUsed);
        assert(k == first_min_index(used_keys(c)));
        lemma_first_min_index(used_keys(c));
        assert forall|j: int| 0 <= j < c.len() implies c[k].used <= (#[trigger] c[j]).used by {
            assert(used_keys(c)[j] == c[j].used as int);
            assert(used_keys(c)[k] == c[k].used as int);
        }
    } else if policy is Lup {
        assert(pick_of(policy) == Pick::LeastUsedPercent);
        assert(k == first_min_index(percent_keys(c)));
        lemma_first_min_index(percent_keys(c));
        assert forall|j: int| 0 <= j < c.len() implies c[k].used_percent <= (
        #[trigger] c[j]).used_percent by {
            assert(percent_keys(c)[j] == c[j].used_percent as int);
            assert(percent_keys(c)[k] == c[k].used_percent as int);
        }
    } else if policy is Ff || policy is All || policy is EpFf || policy is EpAll {
        assert(pick_of(policy) == Pick::First);
    }
}

/// Every row holding the path with its space read is among the spaced positions.
proof fn lemma_spaced_complete(rows: Seq<SearchRow>)
    ensures
        forall|i: int|
            0 <= i < rows.len() && (#[trigger] rows[i]).exists && rows[i].available is Some
                ==> spaced_positions(rows).contains(i),
    decreases rows.len(),
{
    if rows.len() > 0 {
        let q = rows.drop_last();
        lemma_spaced_complete(q);
        let p = spaced_positions(q);
        assert forall|i: int|
            0 <= i < rows.len() && (#[trigger] rows[i]).exists && rows[i].available is Some implies spaced_positions(
            rows,
        ).contains(i) by {
            if i < rows.len() - 1 {
                assert(q[i] == rows[i]);
                let w = choose|w: int| 0 <= w < p.len() && p[w] == i;
                if rows.last().exists && rows.last().available is Some {
                    assert(spaced_positions(rows)[w] == i);
                } else {
                    assert(spaced_positions(rows) == p);
                }
            } else {
                let sp = spaced_positions(rows);
                assert(sp[sp.len() - 1] == i);
            }
        }
    }
}

/// What a search policy finds. `all` and `epall` take the first branch of the pool
/// (none without branches). `mfs` takes a branch holding the path whose available
/// space was read and is at least that of every other such branch; `lfs` one whose
/// space is at most theirs; either finds nothing only when no branch holding the path
/// had its space read. Every other policy takes the first branch holding the path, and
/// finds nothing only when no branch holds it.
pub proof fn law_search_choice(policy: Policy, rows: Seq<SearchRow>)
    ensures
        (policy is All || policy is EpAll) ==> search_choice(policy, rows) == (if rows.len() > 0 {
            Ok::<int, SearchMiss>(0)
        } else {
            Err::<int, SearchMiss>(SearchMiss::NoBranch)
        }),
        (policy is Mfs || policy is Lfs) ==> match search_choice(policy, rows) {
            Ok(i) => 0 <= i < rows.len() && rows[i].exists && rows[i].available is Some && forall|j: int|
                0 <= j < rows.len() && (#[trigger] rows[j]).exists && rows[j].available is Some ==> (
                policy is Mfs ==> rows[j].available.unwrap() <= rows[i].available.unwrap()) && (
                policy is Lfs ==> rows[i].available.unwrap() <= rows[j].available.unwrap()),
            Err(e) => e == SearchMiss::NotFound && forall|j: int|
                0 <= j < rows.len() ==> !((#[trigger] rows[j]).exists && rows[j].available is Some),
        },
        !(policy is All || policy is EpAll || policy is Mfs || policy is Lfs) ==> match search_choice(
            policy,
            rows,
        ) {
            Ok(i) => 0 <= i < rows.len() && rows[i].exists && forall|j: int|
                0 <= j < i ==> !(#[trigger] rows[j]).exists,
            Err(e) => e == SearchMiss::NotFound && forall|j: int|
                0 <= j < rows.len() ==> !(#[trigger] rows[j]).exists,
        },
{
    lemma_spaced_positions(rows);
    lemma_spaced_complete(rows);
    let sp = spaced_positions(rows);
    let keys = spaced_keys(rows);
    if (policy is Mfs || policy is Lfs) && sp.len() > 0 {
        let m = if policy is Mfs {
            lemma_last_max_index(keys);
            last_max_index(keys)
        } else {
            lemma_first_min_index(keys);
            first_min_index(keys)
        };
        let i = sp[m];
        assert forall|j: int|
            0 <= j < rows.len() && (#[trigger] rows[j]).exists && rows[j].available is Some implies (
            policy is Mfs ==> rows[j].available.unwrap() <= rows[i].available.unwrap()) && (policy is Lfs
            ==> rows[i].available.unwrap() <= rows[j].available.unwrap()) by {
            let w = choose|w: int| 0 <= w < sp.len() && sp[w] == j;
            assert(keys[w] == rows[j].available.unwrap() as int);
            assert(keys[m] == rows[i].available.unwrap() as int);
        }
    }
    if (policy is Mfs || policy is Lfs) && sp.len() == 0 {
        assert forall|j: int| 0 <= j < rows.len() implies !((#[trigger] rows[j]).exists
            && rows[j].available is Some) by {
            if rows[j].exists && rows[j].available is Some {
                assert(sp.contains(j));
            }
        }
    }
    let flags = exists_flags(rows);
    lemma_present_positions(flags);
    let pp = present_positions(flags);
    if pp.len() > 0 {
        let i = pp[0];
        assert forall|j: int| 0 <= j < i implies !(#[trigger] rows[j]).exists by {
            if rows[j].exists {
                assert(flags[j]);
                assert(pp.contains(j));
                let w = choose|w: int| 0 <= w < pp.len() && pp[w] == j;
                if w > 0 {
                    assert(pp[0] < pp[w]);
                }
            }
        }
        assert(flags[i]);
    } else {
        assert forall|j: int| 0 <= j < rows.len() implies !(#[trigger] rows[j]).exists by {
            if rows[j].exists {
                assert(flags[j]);
                assert(pp.contains(j));
            }
        }
    }
}

} // verus!
