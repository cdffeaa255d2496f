//! Binary64 arithmetic on whole numbers, stated exactly: whole numbers and quotients
//! rounded to 53 significant bits, as sizes are shown with one decimal and as the
//! used percentage of a filesystem is computed. Every rounding goes to the nearest
//! value, ties to the even one.
use vstd::arithmetic::power2::{lemma2_to64, lemma2_to64_rest, lemma_pow2_pos, lemma_pow2_unfold, pow2};
use vstd::prelude::*;

verus! {

/// `a / b` rounded to the nearest whole number, ties to the even one.
pub open spec fn round_half_even(a: nat, b: nat) -> nat {
    let q = a / b;
    let r = a % b;
    if 2 * r > b {
        q + 1
    } else if 2 * r < b {
        q
    } else if q % 2 == 1 {
        q + 1
    } else {
        q
    }
}

/// The least `e` with `n < 2^53 * 2^e`: how far `n` must be shifted to fit in 53 bits.
pub open spec fn wide_shift(n: nat) -> nat {
    choose|e: nat|
        #![trigger pow2(e)]
        n < pow2(53) * pow2(e) && forall|j: nat| j < e ==> n >= pow2(53) * #[trigger] pow2(j)
}

/// The whole number nearest to `n` that has at most 53 significant bits (ties to
/// even): the value that `n as f64` holds.
pub open spec fn nearest_53(n: nat) -> nat {
    if n < pow2(53) {
        n
    } else {
        round_half_even(n, pow2(wide_shift(n))) * pow2(wide_shift(n))
    }
}

/// The least `k` with `s * 2^k >= 2^52 * u`: the shift that puts the quotient `s / u`
/// between `2^52` and `2^53`.
pub open spec fn quotient_shift(s: nat, u: nat) -> nat {
    choose|k: nat|
        #![trigger pow2(k)]
        s * pow2(k) >= pow2(52) * u && forall|j: nat| j < k ==> s * #[trigger] pow2(j) < pow2(52) * u
}

/// `size / unit` in tenths as `{:.1}` shows the binary64 quotient of `size as f64`
/// by `unit as f64`: the quotient is rounded to 53 significant bits (a mantissa `m`
/// over `2^k`), then `10 * m / 2^k` is rounded to a whole number, ties to even.
pub open spec fn double_tenths(size: nat, unit: nat) -> nat {
    let s = nearest_53(size);
    let k = quotient_shift(s, unit);
    let m = round_half_even(s * pow2(k), unit);
    round_half_even(10 * m, pow2(k))
}

/// The least `d` with `a < 2^53 * t * 2^d`: the shift that puts a large quotient
/// `a / t` below `2^53`.
pub open spec fn cover_shift(a: nat, t: nat) -> nat {
    choose|d: nat|
        #![trigger pow2(d)]
        a < pow2(53) * t * pow2(d) && forall|j: nat| j < d ==> a >= pow2(53) * t * #[trigger] pow2(j)
}

/// `100 - 100 * q` truncated toward zero, for the binary64 quotient `q = m / 2^l`:
/// the product by 100 is rounded to 53 significant bits (`x / 2^l`), then the
/// difference from 100, each to the nearest value, ties to even.
pub open spec fn percent_from_fraction(m: nat, l: nat) -> int {
    let x = nearest_53(100 * m);
    let h = 100 * pow2(l);
    if h >= x {
        (nearest_53((h - x) as nat) / pow2(l)) as int
    } else {
        -((nearest_53((x - h) as nat) / pow2(l)) as int)
    }
}

/// `100 - 100 * q` truncated toward zero and saturated to `i64`, for the binary64
/// quotient `q = m * 2^d`: the product by 100 is rounded to 53 significant bits,
/// then the difference from 100, each to the nearest value, ties to even.
pub open spec fn percent_from_multiple(m: nat, d: nat) -> int {
    let big = nearest_53(100 * m) * pow2(d);
    if big >= 100 {
        let v = nearest_53((big - 100) as nat);
        if v >= 0x8000_0000_0000_0000 {
            i64::MIN as int
        } else {
            -(v as int)
        }
    } else {
        nearest_53((100 - big) as nat) as int
    }
}

/// The least cover shift is the only one.
pub(crate) proof fn lemma_cover_shift(a: nat, t: nat, d: nat)
    requires
        a < pow2(53) * t * pow2(d),
        forall|j: nat| j < d ==> a >= pow2(53) * t * #[trigger] pow2(j),
    ensures
        cover_shift(a, t) == d,
{
    let w = cover_shift(a, t);
    assert(a < pow2(53) * t * pow2(w) && forall|j: nat|
        j < w ==> a >= pow2(53) * t * #[trigger] pow2(j));
    if w < d {
        assert(a >= pow2(53) * t * pow2(w));
    } else if w > d {
        assert(a >= pow2(53) * t * pow2(d));
    }
}

/// The used percentage of a filesystem with `a` of its `t` bytes available (`t > 0`),
/// as `100.0 - (a as f64 / t as f64) * 100.0` gives it in binary64 and `as i64`
/// truncates it toward zero (saturating): both counts are rounded to 53 significant
/// bits, then their quotient (`m / 2^l`, or `m * 2^d` when it reaches `2^52`), then
/// the product by 100, then the difference from 100, each to the nearest value,
/// ties to even.
pub open spec fn used_percent_truncated(a: nat, t: nat) -> int {
    if a == 0 {
        100
    } else {
        let an = nearest_53(a);
        let tn = nearest_53(t);
        let l = quotient_shift(an, tn);
        if l > 0 {
            percent_from_fraction(round_half_even(an * pow2(l), tn), l)
        } else {
            let d = cover_shift(an, tn);
            percent_from_multiple(round_half_even(an, tn * pow2(d)), d)
        }
    }
}

/// `a / b` rounded to the nearest whole number, ties to the even one.
pub(crate) fn round_half_even_exec(a: u128, b: u128) -> (r: u128)
    requires
        b > 0,
        a < u128::MAX,
    ensures
        r == round_half_even(a as nat, b as nat),
        r <= a / b + 1,
{
    let q = a / b;
    let rem = a % b;
    assert(q <= a) by (nonlinear_arith)
        requires
            q == a / b,
            b > 0,
    ;
    if rem > b - rem {
        q + 1
    } else if rem < b - rem {
        q
    } else if q % 2 == 1 {
        q + 1
    } else {
        q
    }
}

/// The least shift of a property is the only one.
pub(crate) proof fn lemma_wide_shift(n: nat, e: nat)
    requires
        n < pow2(53) * pow2(e),
        forall|j: nat| j < e ==> n >= pow2(53) * #[trigger] pow2(j),
    ensures
        wide_shift(n) == e,
{
    let w = wide_shift(n);
    assert(n < pow2(53) * pow2(w) && forall|j: nat| j < w ==> n >= pow2(53) * #[trigger] pow2(j));
    if w < e {
        assert(n >= pow2(53) * pow2(w));
    } else if w > e {
        assert(n >= pow2(53) * pow2(e));
    }
}

/// The least quotient shift is the only one.
pub(crate) proof fn lemma_quotient_shift(s: nat, u: nat, k: nat)
    requires
        s * pow2(k) >= pow2(52) * u,
        forall|j: nat| j < k ==> s * #[trigger] pow2(j) < pow2(52) * u,
    ensures
        quotient_shift(s, u) == k,
{
    let w = quotient_shift(s, u);
    assert(s * pow2(w) >= pow2(52) * u && forall|j: nat|
        j < w ==> s * #[trigger] pow2(j) < pow2(52) * u);
    if w < k {
        assert(s * pow2(w) < pow2(52) * u);
    } else if w > k {
        assert(s * pow2(k) < pow2(52) * u);
    }
}

/// The whole number nearest to `n` with at most 53 significant bits (see
/// `nearest_53`).
fn nearest_53_exec(n: u64) -> (s: u128)
    ensures
        s == nearest_53(n as nat),
        s <= n + 0x800,
        n < 0x20_0000_0000_0000 ==> s == n,
        n >= 0x20_0000_0000_0000 ==> s >= 0x20_0000_0000_0000,
{
    proof {
        lemma2_to64();
        lemma2_to64_rest();
    }
    let two53: u128 = 0x20_0000_0000_0000;
    let w = n as u128;
    if w < two53 {
        return w;
    }
    let mut e: u64 = 0;
    let mut p: u128 = 1;
    while w >= two53 * p
        invariant
            p == pow2(e as nat),
            e <= 11,
            p <= 0x800,
            e == 11 ==> p == 0x800,
            two53 == pow2(53),
            two53 == 0x20_0000_0000_0000,
            w == n as u128,
            w >= two53,
            forall|j: nat| j < e ==> w >= pow2(53) * #[trigger] pow2(j),
        decreases 11 - e,
    {
        proof {
            lemma_pow2_unfold((e + 1) as nat);
            assert(e < 11) by {
                if e == 11 {
                    assert(two53 * 0x800 == 0x1_0000_0000_0000_0000);
                }
            }
            if e + 1 == 11 {
                assert(pow2(11) == 0x800) by {
                    lemma2_to64();
                }
            }
            assert(pow2((e + 1) as nat) <= 0x800) by {
                lemma2_to64();
                if e + 1 < 11 {
                    vstd::arithmetic::power2::lemma_pow2_strictly_increases((e + 1) as nat, 11);
                }
            }
        }
        e = e + 1;
        p = p * 2;
    }
    proof {
        lemma_wide_shift(w as nat, e as nat);
        lemma_pow2_pos(e as nat);
        assert(e >= 1) by {
            if e == 0 {
                assert(pow2(0) == 1);
            }
        }
        lemma_pow2_unfold(e as nat);
        assert(w >= pow2(53) * pow2((e - 1) as nat));
    }
    let h: u128 = p / 2;
    assert(p == 2 * h && h >= 1);
    let q = round_half_even_exec(w, p);
    assert(w / p >= two53 / 2) by (nonlinear_arith)
        requires
            w >= two53 * h,
            p == 2 * h,
            h >= 1,
            two53 == 0x20_0000_0000_0000,
    ;
    assert(q * p >= two53) by (nonlinear_arith)
        requires
            q >= w / p,
            w / p >= two53 / 2,
            p >= 2,
            two53 == 0x20_0000_0000_0000,
    ;
    assert(q * p <= w + p) by (nonlinear_arith)
        requires
            q <= w / p + 1,
            p >= 1,
    ;
    q * p
}

/// The whole number nearest to a wide `w` with at most 53 significant bits (see
/// `nearest_53`).
pub(crate) fn nearest_53_wide(w: u128) -> (s: u128)
    requires
        w < 0x1000_0000_0000_0000_0000_0000_0000_0000,
    ensures
        s == nearest_53(w as nat),
        s <= 2 * w,
        w < 0x20_0000_0000_0000 ==> s == w,
{
    proof {
        lemma2_to64();
        lemma2_to64_rest();
    }
    let two53: u128 = 0x20_0000_0000_0000;
    if w < two53 {
        return w;
    }
    let mut e: u128 = 0;
    let mut p: u128 = 1;
    while w >= two53 * p
        invariant
            p == pow2(e as nat),
            1 <= p <= 0x100_0000_0000_0000_0000,
            e as int <= p,
            two53 == pow2(53),
            two53 == 0x20_0000_0000_0000,
            w >= two53,
            w < 0x1000_0000_0000_0000_0000_0000_0000_0000,
            forall|j: nat| j < e ==> w >= pow2(53) * #[trigger] pow2(j),
        decreases 0x200_0000_0000_0000_0000 - p,
    {
        proof {
            lemma_pow2_unfold((e + 1) as nat);
            assert(p * 2 <= 0x100_0000_0000_0000_0000) by (nonlinear_arith)
                requires
                    w >= two53 * p,
                    w < 0x1000_0000_0000_0000_0000_0000_0000_0000,
                    two53 == 0x20_0000_0000_0000,
            ;
        }
        e = e + 1;
        p = p * 2;
    }
    proof {
        lemma_wide_shift(w as nat, e as nat);
        lemma_pow2_pos(e as nat);
        assert(e >= 1) by {
            if e == 0 {
                assert(pow2(0) == 1);
            }
        }
        lemma_pow2_unfold(e as nat);
        assert(w >= pow2(53) * pow2((e - 1) as nat));
    }
    let h: u128 = p / 2;
    assert(p == 2 * h && h >= 1);
    assert(w >= p) by (nonlinear_arith)
        requires
            w >= two53 * h,
            p == 2 * h,
            two53 == 0x20_0000_0000_0000,
    ;
    let q = round_half_even_exec(w, p);
    assert(q * p <= w + p) by (nonlinear_arith)
        requires
            q <= w / p + 1,
            p >= 1,
    ;
    q * p
}

/// The least `k` with `s * 2^k >= 2^52 * u`, with `s * 2^k` and `2^k`.
fn quotient_shift_exec(s: u128, u: u128) -> (r: (u64, u128, u128))
    requires
        1 <= u,
        u <= s,
        s <= 0x2_0000_0000_0000_0000,
    ensures
        r.0 == quotient_shift(s as nat, u as nat),
        r.0 <= 52,
        r.2 == pow2(r.0 as nat),
        r.1 == s * r.2,
        r.0 > 0 ==> r.1 < 0x20_0000_0000_0000 * u,
{
    proof {
        lemma2_to64();
        lemma2_to64_rest();
    }
    let two52: u128 = 0x10_0000_0000_0000;
    let mut k: u64 = 0;
    let mut sk: u128 = s;
    let mut pk: u128 = 1;
    while sk < two52 * u
        invariant
            pk == pow2(k as nat),
            sk == s * pk,
            k <= 52,
            pk <= 0x10_0000_0000_0000,
            two52 == pow2(52),
            two52 == 0x10_0000_0000_0000,
            1 <= u <= s,
            s <= 0x2_0000_0000_0000_0000,
            u <= 0x2_0000_0000_0000_0000,
            forall|j: nat| j < k ==> s * #[trigger] pow2(j) < pow2(52) * u,
            k > 0 ==> sk < 0x20_0000_0000_0000 * u,
        decreases 52 - k,
    {
        proof {
            assert(k < 52) by {
                if k == 52 {
                    assert(pow2(52) == 0x10_0000_0000_0000);
                    assert(sk >= two52 * u) by (nonlinear_arith)
                        requires
                            sk == s * pk,
                            pk == two52,
                            s >= u,
                    ;
                }
            }
            lemma_pow2_unfold((k + 1) as nat);
            assert(pow2((k + 1) as nat) <= 0x10_0000_0000_0000) by {
                lemma2_to64_rest();
                if k + 1 < 52 {
                    vstd::arithmetic::power2::lemma_pow2_strictly_increases((k + 1) as nat, 52);
                }
            }
            assert(sk * 2 == s * (pk * 2)) by (nonlinear_arith)
                requires
                    sk == s * pk,
            ;
            assert(sk * 2 <= 0x2_0000_0000_0000_0000 * 0x10_0000_0000_0000) by (nonlinear_arith)
                requires
                    sk == s * pk,
                    s <= 0x2_0000_0000_0000_0000,
                    pk * 2 <= 0x10_0000_0000_0000,
            ;
        }
        k = k + 1;
        sk = sk * 2;
        pk = pk * 2;
    }
    proof {
        lemma_quotient_shift(s as nat, u as nat, k as nat);
    }
    (k, sk, pk)
}

/// The least `l` with `a * 2^l >= 2^52 * t` (see `quotient_shift`), and `a * 2^l / t`
/// rounded to the nearest whole number, ties to even: when `l > 0`, the mantissa of
/// the binary64 quotient `a / t`, whose value is that mantissa over `2^l`.
fn shifted_quotient(a: u128, t: u128) -> (r: (u64, u128))
    requires
        1 <= a <= 0x2_0000_0000_0000_0000,
        1 <= t <= 0x2_0000_0000_0000_0000,
    ensures
        r.0 == quotient_shift(a as nat, t as nat),
        r.1 == round_half_even((a * pow2(r.0 as nat)) as nat, t as nat),
        r.0 > 0 ==> r.1 <= 0x20_0000_0000_0000,
        r.0 <= 117,
{
    proof {
        lemma2_to64();
        lemma2_to64_rest();
    }
    let two52: u128 = 0x10_0000_0000_0000;
    let mut i: u64 = 0;
    let mut q: u128 = a / t;
    let mut rem: u128 = a % t;
    proof {
        assert(pow2(0) == 1);
        assert(a == q * t + rem) by (nonlinear_arith)
            requires
                q == a / t,
                rem == a % t,
                t >= 1,
        ;
    }
    while q < two52
        invariant
            a * pow2(i as nat) == q * t + rem,
            rem < t,
            1 <= a <= 0x2_0000_0000_0000_0000,
            1 <= t <= 0x2_0000_0000_0000_0000,
            two52 == pow2(52),
            two52 == 0x10_0000_0000_0000,
            i <= 117,
            q <= 0x2_0000_0000_0000_0000,
            i > 0 ==> q < 0x20_0000_0000_0000,
            forall|j: nat| j < i ==> a * #[trigger] pow2(j) < pow2(52) * t,
        decreases 117 - i,
    {
        proof {
            assert(a * pow2(i as nat) < pow2(52) * t) by (nonlinear_arith)
                requires
                    a * pow2(i as nat) == q * t + rem,
                    rem < t,
                    q < two52,
                    two52 == pow2(52),
            ;
            assert(i < 117) by {
                if i == 117 {
                    vstd::arithmetic::power2::lemma_pow2_adds(52, 65);
                    lemma_pow2_unfold(65);
                    lemma2_to64();
                    assert(pow2(65) == 0x2_0000_0000_0000_0000);
                    lemma_pow2_pos(117);
                    assert(a * pow2(117) >= pow2(117)) by (nonlinear_arith)
                        requires
                            a >= 1,
                    ;
                    assert(pow2(117) >= pow2(52) * t) by (nonlinear_arith)
                        requires
                            pow2(117) == pow2(52) * pow2(65),
                            pow2(65) == 0x2_0000_0000_0000_0000,
                            t <= 0x2_0000_0000_0000_0000,
                    ;
                }
            }
            lemma_pow2_unfold((i + 1) as nat);
        }
        let ghost old_q = q;
        let ghost old_rem = rem;
        let twice = 2 * rem;
        if twice >= t {
            q = 2 * q + 1;
            rem = twice - t;
        } else {
            q = 2 * q;
            rem = twice;
        }
        proof {
            assert(a * pow2((i + 1) as nat) == q * t + rem) by (nonlinear_arith)
                requires
                    a * pow2(i as nat) == old_q * t + old_rem,
                    pow2((i + 1) as nat) == 2 * pow2(i as nat),
                    twice == 2 * old_rem,
                    twice >= t ==> q == 2 * old_q + 1 && rem == twice - t,
                    twice < t ==> q == 2 * old_q && rem == twice,
            ;
        }
        i = i + 1;
    }
    proof {
        assert(a * pow2(i as nat) >= pow2(52) * t) by (nonlinear_arith)
            requires
                a * pow2(i as nat) == q * t + rem,
                q >= two52,
                two52 == pow2(52),
        ;
        lemma_quotient_shift(a as nat, t as nat, i as nat);
        vstd::arithmetic::div_mod::lemma_fundamental_div_mod_converse(
            a * pow2(i as nat),
            t as int,
            q as int,
            rem as int,
        );
    }
    let m = if rem > t - rem {
        q + 1
    } else if rem < t - rem {
        q
    } else if q % 2 == 1 {
        q + 1
    } else {
        q
    };
    (i, m)
}

/// `2^l`.
pub(crate) fn pow2_exec(l: u64) -> (r: u128)
    requires
        l <= 120,
    ensures
        r == pow2(l as nat),
        r >= 1,
{
    let mut i: u64 = 0;
    let mut p: u128 = 1;
    proof {
        lemma2_to64();
    }
    while i < l
        invariant
            i <= l <= 120,
            p == pow2(i as nat),
            1 <= p <= 0x100_0000_0000_0000_0000_0000_0000_0000,
        decreases l - i,
    {
        proof {
            lemma_pow2_unfold((i + 1) as nat);
            if i + 1 < 120 {
                vstd::arithmetic::power2::lemma_pow2_strictly_increases((i + 1) as nat, 120);
            }
            vstd::arithmetic::power2::lemma_pow2_adds(64, 56);
            lemma2_to64();
            lemma2_to64_rest();
            assert(pow2(56) == 0x100_0000_0000_0000);
            assert(pow2(120) == 0x100_0000_0000_0000_0000_0000_0000_0000);
        }
        i = i + 1;
        p = p * 2;
    }
    p
}

/// The least `d` with `a < 2^53 * t * 2^d` (see `cover_shift`), `t * 2^d`,
/// `2^d`, and `a / (t * 2^d)` rounded to the nearest whole number, ties to even.
fn covered_quotient(a: u128, t: u128) -> (r: (u64, u128, u128, u128))
    requires
        a <= 0x4_0000_0000_0000_0000,
        1 <= t <= 0x4_0000_0000_0000_0000,
    ensures
        r.0 == cover_shift(a as nat, t as nat),
        r.2 == pow2(r.0 as nat),
        r.1 == t * r.2,
        r.1 >= 1,
        r.2 <= 0x4000,
        r.3 == round_half_even(a as nat, r.1 as nat),
        r.3 <= 0x20_0000_0000_0000,
{
    proof {
        lemma2_to64();
        lemma2_to64_rest();
    }
    let two53: u128 = 0x20_0000_0000_0000;
    let mut d: u64 = 0;
    let mut tp: u128 = t;
    let mut pd: u128 = 1;
    while a >= two53 * tp
        invariant
            pd == pow2(d as nat),
            tp == t * pd,
            1 <= t <= tp,
            1 <= pd <= tp,
            d as int <= pd,
            tp <= 0x4_0000_0000_0000_0000,
            d > 0 ==> tp <= 0x4000,
            two53 == 0x20_0000_0000_0000,
            two53 == pow2(53),
            a <= 0x4_0000_0000_0000_0000,
            forall|j: nat| j < d ==> a >= pow2(53) * t * #[trigger] pow2(j),
        decreases 0x8_0000_0000_0000_0000 - tp,
    {
        proof {
            lemma_pow2_unfold((d + 1) as nat);
            assert(tp <= 0x2000) by (nonlinear_arith)
                requires
                    a >= two53 * tp,
                    a <= 0x4_0000_0000_0000_0000,
                    two53 == 0x20_0000_0000_0000,
            ;
            assert(a >= pow2(53) * t * pow2(d as nat)) by (nonlinear_arith)
                requires
                    a >= two53 * tp,
                    tp == t * pd,
                    pd == pow2(d as nat),
                    two53 == pow2(53),
            ;
            assert(tp * 2 == t * (pd * 2)) by (nonlinear_arith)
                requires
                    tp == t * pd,
            ;
        }
        d = d + 1;
        tp = tp * 2;
        pd = pd * 2;
    }
    proof {
        assert(a < pow2(53) * t * pow2(d as nat)) by (nonlinear_arith)
            requires
                a < two53 * tp,
                tp == t * pd,
                pd == pow2(d as nat),
                two53 == pow2(53),
        ;
        assert(pd <= 0x4000) by {
            if d == 0 {
                assert(pow2(0) == 1);
            }
        }
        let w = cover_shift(a as nat, t as nat);
        assert(a < pow2(53) * t * pow2(w) && forall|j: nat|
            j < w ==> a >= pow2(53) * t * #[trigger] pow2(j));
        if w < d {
            assert(a >= pow2(53) * t * pow2(w));
        } else if w > d {
            assert(a >= pow2(53) * t * pow2(d as nat));
        }
    }
    assert(a / tp < two53) by (nonlinear_arith)
        requires
            a < two53 * tp,
            tp >= 1,
    ;
    let m = round_half_even_exec(a, tp);
    (d, tp, pd, m)
}

/// `100 - 100 * (m / 2^l)` as binary64 arithmetic truncates it (see
/// `percent_from_fraction`).
fn percent_from_fraction_exec(m: u128, l: u64) -> (r: i64)
    requires
        1 <= l <= 117,
        m <= 0x20_0000_0000_0000,
    ensures
        r as int == percent_from_fraction(m as nat, l as nat),
{
    let pl = pow2_exec(l);
    proof {
        if l < 117 {
            vstd::arithmetic::power2::lemma_pow2_strictly_increases(l as nat, 117);
        }
        vstd::arithmetic::power2::lemma_pow2_adds(64, 53);
        lemma2_to64();
        lemma2_to64_rest();
    }
    assert(pl <= 0x20_0000_0000_0000_0000_0000_0000_0000);
    let x = nearest_53_wide(100 * m);
    let h = 100 * pl;
    if h >= x {
        let v = nearest_53_wide(h - x);
        assert(v / pl <= 200) by (nonlinear_arith)
            requires
                v <= 2 * (h - x),
                h == 100 * pl,
                pl >= 1,
        ;
        (v / pl) as i64
    } else {
        let v = nearest_53_wide(x - h);
        assert(v / pl <= v) by (nonlinear_arith)
            requires
                pl >= 1,
        ;
        -((v / pl) as i64)
    }
}

/// `100 - 100 * (m * 2^d)` as binary64 arithmetic truncates and saturates it (see
/// `percent_from_multiple`).
fn percent_from_multiple_exec(m: u128, pd: u128, d: u64) -> (r: i64)
    requires
        pd == pow2(d as nat),
        1 <= pd <= 0x4000,
        m <= 0x20_0000_0000_0000,
    ensures
        r as int == percent_from_multiple(m as nat, d as nat),
{
    let x = nearest_53_wide(100 * m);
    assert(x * pd <= 0x1_0000_0000_0000_0000_0000) by (nonlinear_arith)
        requires
            x <= 2 * (100 * m),
            m <= 0x20_0000_0000_0000,
            pd <= 0x4000,
    ;
    let big = x * pd;
    if big >= 100 {
        let v = nearest_53_wide(big - 100);
        if v >= 0x8000_0000_0000_0000 {
            i64::MIN
        } else {
            -(v as i64)
        }
    } else {
        let v = nearest_53_wide(100 - big);
        v as i64
    }
}

/// The used percentage of a filesystem with `a` of its `t` bytes available, as the
/// binary64 computation truncates it (see `used_percent_truncated`).
pub fn used_percent_key(a: u64, t: u64) -> (r: i64)
    requires
        t >= 1,
    ensures
        r as int == used_percent_truncated(a as nat, t as nat),
{
    if a == 0 {
        return 100;
    }
    let an = nearest_53_exec(a);
    let tn = nearest_53_exec(t);
    let (l, m) = shifted_quotient(an, tn);
    if l > 0 {
        percent_from_fraction_exec(m, l)
    } else {
        let (d, tp, pd, m2) = covered_quotient(an, tn);
        percent_from_multiple_exec(m2, pd, d)
    }
}

/// `size / unit` in tenths, as the binary64 quotient is shown with one decimal (see
/// `double_tenths`).
pub fn quotient_tenths(size: u64, unit: u64) -> (t: u64)
    requires
        1 <= unit < 0x20_0000_0000_0000,
        unit <= size,
        size as int <= unit as int * 0x10_0000_0000_0000,
    ensures
        t == double_tenths(size as nat, unit as nat),
{
    let two53: u128 = 0x20_0000_0000_0000;
    let u = unit as u128;
    let s = nearest_53_exec(size);
    assert(s >= u);
    assert(size >= 0x20_0000_0000_0000 ==> u >= 2) by (nonlinear_arith)
        requires
            size as u128 <= u * 0x10_0000_0000_0000,
            u >= 1,
    ;
    assert(s < two53 * u) by (nonlinear_arith)
        requires
            s <= size as u128 + 0x800,
            size < 0x20_0000_0000_0000 ==> s == size as u128,
            size as u128 <= u * 0x10_0000_0000_0000,
            size >= 0x20_0000_0000_0000 ==> u >= 2,
            u >= 1,
            two53 == 0x20_0000_0000_0000,
    ;
    let (k, sk, pk) = quotient_shift_exec(s, u);
    assert(sk < two53 * u) by {
        if k == 0 {
            assert(pk == 1) by {
                lemma2_to64();
            }
            assert(sk == s) by (nonlinear_arith)
                requires
                    sk == s * pk,
                    pk == 1,
            ;
        }
    }
    assert(sk / u < two53) by (nonlinear_arith)
        requires
            sk < two53 * u,
            u >= 1,
    ;
    let m = round_half_even_exec(sk, u);
    proof {
        lemma_pow2_pos(k as nat);
    }
    let tm: u128 = 10 * m;
    assert(tm / pk <= tm) by (nonlinear_arith)
        requires
            pk >= 1,
    ;
    let t = round_half_even_exec(tm, pk);
    assert(t <= 10 * two53 + 1);
    t as u64
}

} // verus!
