//! Human-readable sizes: parsing `"4G"`, `"1.5MiB"`, ... into bytes.
use crate::error::{join2, NofsError};
use crate::text::{
    decimal, digit_char, is_ws, trim_end, trim_start,
    chars_eq, chars_range, is_ascii_digit, string_of, to_chars, to_uppercase, trim, trim_bounds,
    trim_chars, upper_text,
};
use vstd::arithmetic::mul::{
    lemma_mul_inequality, lemma_mul_is_associative, lemma_mul_is_commutative,
    lemma_mul_is_distributive_add,
};
use crate::nearest::{
    cover_shift, lemma_cover_shift, lemma_quotient_shift, nearest_53, nearest_53_wide, pow2_exec, quotient_shift,
    round_half_even, round_half_even_exec,
};
use vstd::arithmetic::power2::pow2;
use vstd::prelude::*;

verus! {

/// SI units of size.
pub const KB: u64 = 1000;

pub const MB: u64 = 1000000;

pub const GB: u64 = 1000000000;

pub const TB: u64 = 1000000000000;

pub const PB: u64 = 1000000000000000;

/// The largest size a decimal number (one with a `.`) may denote: `2^54`.
pub const MAX_DECIMAL_SIZE: u64 = 18014398509481984;

pub open spec fn pow10(k: nat) -> nat
    decreases k,
{
    if k == 0 {
        1
    } else {
        10 * pow10((k - 1) as nat)
    }
}

/// The value of a digit character.
pub open spec fn digit_value(c: char) -> nat {
    ((c as u32) - ('0' as u32)) as nat
}

/// The value of a run of decimal digits (0 for none).
pub open spec fn digits_value(d: Seq<char>) -> nat
    decreases d.len(),
{
    if d.len() == 0 {
        0
    } else {
        digits_value(d.subrange(0, d.len() - 1)) * 10 + digit_value(d[d.len() - 1])
    }
}

pub open spec fn all_digits(d: Seq<char>) -> bool {
    forall|i: int| 0 <= i < d.len() ==> is_ascii_digit(#[trigger] d[i])
}

/// What `u64::from_str` accepts: an optional `+`, then at least one digit, for a
/// value that fits in 64 bits.
pub open spec fn plain_u64(t: Seq<char>) -> Option<nat> {
    let d = if t.len() > 0 && t[0] == '+' {
        t.subrange(1, t.len() as int)
    } else {
        t
    };
    if d.len() >= 1 && all_digits(d) && digits_value(d) <= u64::MAX {
        Some(digits_value(d))
    } else {
        None
    }
}

/// The length of the longest prefix of `t` made of digits and dots.
pub open spec fn number_len(t: Seq<char>) -> nat
    decreases t.len(),
{
    if t.len() > 0 && (is_ascii_digit(t[0]) || t[0] == '.') {
        1 + number_len(t.subrange(1, t.len() as int))
    } else {
        0
    }
}

/// The number of dots in `t`.
pub open spec fn dot_count(t: Seq<char>) -> nat
    decreases t.len(),
{
    if t.len() == 0 {
        0
    } else {
        dot_count(t.subrange(0, t.len() - 1)) + if t[t.len() - 1] == '.' {
            1nat
        } else {
            0nat
        }
    }
}

/// The bytes one unit of an (upper-cased) size suffix stands for.
pub open spec fn unit_bytes(u: Seq<char>) -> Option<nat> {
    if u == ""@ || u == "B"@ {
        Some(1)
    } else if u == "K"@ || u == "KB"@ {
        Some(1000)
    } else if u == "M"@ || u == "MB"@ {
        Some(1000000)
    } else if u == "G"@ || u == "GB"@ {
        Some(1000000000)
    } else if u == "T"@ || u == "TB"@ {
        Some(1000000000000)
    } else if u == "P"@ || u == "PB"@ {
        Some(1000000000000000)
    } else if u == "KIB"@ {
        Some(1024)
    } else if u == "MIB"@ {
        Some(1048576)
    } else if u == "GIB"@ {
        Some(1073741824)
    } else if u == "TIB"@ {
        Some(1099511627776)
    } else if u == "PIB"@ {
        Some(1125899906842624)
    } else {
        None
    }
}

/// The bytes a size text denotes:
/// - a plain integer (what `u64::from_str` accepts) is that many bytes;
/// - otherwise the text is a number (digits and dots) followed by a unit
///   (`B`, `K`/`KB` ... `P`/`PB` for powers of 1000, `KiB` ... `PiB` for powers of
///   1024, in any case, blanks allowed around it);
/// - a number with one dot is a decimal; its value times the unit, as binary64
///   arithmetic computes it (see `decimal_bytes`), must not exceed
///   `MAX_DECIMAL_SIZE` and is then rounded down;
/// - a number without dots is an integer; its value times the unit must fit in 64 bits.
/// Blanks around the whole text are ignored.
pub open spec fn parse_size_spec(s: Seq<char>) -> Option<nat> {
    let t = trim(s);
    match plain_u64(t) {
        Some(v) => Some(v),
        None => {
            let k = number_len(t);
            let num = t.subrange(0, k as int);
            match unit_bytes(upper_text(trim(t.subrange(k as int, t.len() as int)))) {
                None => None,
                Some(m) => if dot_count(num) == 0 {
                    if num.len() >= 1 && digits_value(num) * m <= u64::MAX {
                        Some(digits_value(num) * m)
                    } else {
                        None
                    }
                } else if dot_count(num) == 1 && num.len() >= 2 {
                    let p = first_dot(num);
                    let int_part = num.subrange(0, p as int);
                    let frac = num.subrange(p as int + 1, num.len() as int);
                    decimal_bytes(digits_value(int_part + frac), frac.len(), m)
                } else {
                    None
                },
            }
        },
    }
}

/// The position of the first dot of `t`, or its length.
pub open spec fn first_dot(t: Seq<char>) -> nat
    decreases t.len(),
{
    if t.len() == 0 || t[0] == '.' {
        0
    } else {
        1 + first_dot(t.subrange(1, t.len() as int))
    }
}

proof fn lemma_pow10_pos(k: nat)
    ensures
        pow10(k) >= 1,
    decreases k,
{
    if k > 0 {
        lemma_pow10_pos((k - 1) as nat);
    }
}

/// The value of digits written one after the other.
proof fn lemma_digits_concat(a: Seq<char>, b: Seq<char>)
    ensures
        digits_value(a + b) == digits_value(a) * pow10(b.len()) + digits_value(b),
    decreases b.len(),
{
    if b.len() == 0 {
        assert(a + b =~= a);
        assert(pow10(0) == 1);
        assert(digits_value(b) == 0);
    } else {
        let b1 = b.subrange(0, b.len() - 1);
        lemma_digits_concat(a, b1);
        let ab = a + b;
        assert(ab.subrange(0, ab.len() - 1) =~= a + b1);
        assert(ab[ab.len() - 1] == b[b.len() - 1]);
        let x = digits_value(a);
        let p = pow10(b1.len());
        let last = digit_value(b[b.len() - 1]);
        assert(digits_value(ab) == digits_value(a + b1) * 10 + last);
        assert(digits_value(b) == digits_value(b1) * 10 + last);
        assert(pow10(b.len()) == 10 * p);
        assert((x * p + digits_value(b1)) * 10 == x * (10 * p) + digits_value(b1) * 10) by {
            lemma_mul_is_distributive_add(10, (x * p) as int, digits_value(b1) as int);
            lemma_mul_is_associative(x as int, p as int, 10);
            lemma_mul_is_commutative(p as int, 10);
            lemma_mul_is_commutative((x * p + digits_value(b1)) as int, 10);
            lemma_mul_is_commutative(digits_value(b1) as int, 10);
            lemma_mul_is_commutative((x * p) as int, 10);
        }
    }
}

/// A prefix of digits is worth no more than the whole.
proof fn lemma_digits_prefix(d: Seq<char>, i: int)
    requires
        0 <= i <= d.len(),
    ensures
        digits_value(d.subrange(0, i)) <= digits_value(d),
{
    let a = d.subrange(0, i);
    let b = d.subrange(i, d.len() as int);
    assert(a + b =~= d);
    lemma_digits_concat(a, b);
    lemma_pow10_pos(b.len());
    lemma_mul_inequality(1, pow10(b.len()) as int, digits_value(a) as int);
}

proof fn lemma_number_len(t: Seq<char>)
    ensures
        number_len(t) <= t.len(),
        forall|i: int|
            0 <= i < number_len(t) ==> is_ascii_digit(#[trigger] t[i]) || t[i] == '.',
        number_len(t) < t.len() ==> !(is_ascii_digit(t[number_len(t) as int]) || t[number_len(
            t,
        ) as int] == '.'),
    decreases t.len(),
{
    if t.len() > 0 && (is_ascii_digit(t[0]) || t[0] == '.') {
        let r = t.subrange(1, t.len() as int);
        lemma_number_len(r);
        assert forall|i: int| 0 <= i < number_len(t) implies is_ascii_digit(#[trigger] t[i])
            || t[i] == '.' by {
            if i > 0 {
                assert(t[i] == r[i - 1]);
            }
        }
    }
}

proof fn lemma_number_len_at(t: Seq<char>, k: int)
    requires
        0 <= k <= t.len(),
        forall|i: int| 0 <= i < k ==> is_ascii_digit(#[trigger] t[i]) || t[i] == '.',
        k < t.len() ==> !(is_ascii_digit(t[k]) || t[k] == '.'),
    ensures
        number_len(t) == k,
    decreases t.len(),
{
    if t.len() > 0 && (is_ascii_digit(t[0]) || t[0] == '.') {
        let r = t.subrange(1, t.len() as int);
        assert forall|i: int| 0 <= i < k - 1 implies is_ascii_digit(#[trigger] r[i]) || r[i]
            == '.' by {
            assert(r[i] == t[i + 1]);
        }
        lemma_number_len_at(r, k - 1);
    }
}

proof fn lemma_dot_count_step(t: Seq<char>, i: int)
    requires
        0 <= i < t.len(),
    ensures
        dot_count(t.subrange(0, i + 1)) == dot_count(t.subrange(0, i)) + if t[i] == '.' {
            1nat
        } else {
            0nat
        },
{
    assert(t.subrange(0, i + 1).subrange(0, i) =~= t.subrange(0, i));
}

proof fn lemma_no_dots_digits(t: Seq<char>)
    requires
        dot_count(t) == 0,
        forall|i: int| 0 <= i < t.len() ==> is_ascii_digit(#[trigger] t[i]) || t[i] == '.',
    ensures
        all_digits(t),
    decreases t.len(),
{
    if t.len() > 0 {
        let p = t.subrange(0, t.len() - 1);
        lemma_no_dots_digits(p);
        assert forall|i: int| 0 <= i < t.len() implies is_ascii_digit(#[trigger] t[i]) by {
            if i < t.len() - 1 {
                assert(t[i] == p[i]);
            }
        }
    }
}

proof fn lemma_one_dot_split(t: Seq<char>, p: int)
    requires
        0 <= p < t.len(),
        t[p] == '.',
        forall|i: int| 0 <= i < t.len() ==> is_ascii_digit(#[trigger] t[i]) || t[i] == '.',
        forall|i: int| 0 <= i < t.len() && i != p ==> t[i] != '.',
    ensures
        first_dot(t) == p,
        dot_count(t) == 1,
        all_digits(t.subrange(0, p)),
        all_digits(t.subrange(p + 1, t.len() as int)),
{
    lemma_first_dot_at(t, p);
    lemma_dot_count_one(t, p);
}

proof fn lemma_first_dot_at(t: Seq<char>, p: int)
    requires
        0 <= p < t.len(),
        t[p] == '.',
        forall|i: int| 0 <= i < p ==> t[i] != '.',
    ensures
        first_dot(t) == p,
    decreases t.len(),
{
    if t[0] != '.' {
        lemma_first_dot_at(t.subrange(1, t.len() as int), p - 1);
    }
}

proof fn lemma_dot_count_one(t: Seq<char>, p: int)
    requires
        0 <= p < t.len(),
        t[p] == '.',
        forall|i: int| 0 <= i < t.len() && i != p ==> t[i] != '.',
    ensures
        dot_count(t) == 1,
    decreases t.len(),
{
    let q = t.subrange(0, t.len() - 1);
    if p == t.len() - 1 {
        lemma_dot_count_zero(q);
    } else {
        lemma_dot_count_one(q, p);
    }
}

proof fn lemma_dot_count_zero(t: Seq<char>)
    requires
        forall|i: int| 0 <= i < t.len() ==> t[i] != '.',
    ensures
        dot_count(t) == 0,
    decreases t.len(),
{
    if t.len() > 0 {
        lemma_dot_count_zero(t.subrange(0, t.len() - 1));
    }
}

proof fn lemma_dot_count_many(t: Seq<char>, p: int, q: int)
    requires
        0 <= p < q < t.len(),
        t[p] == '.',
        t[q] == '.',
    ensures
        dot_count(t) >= 2,
    decreases t.len(),
{
    lemma_dot_count_ge1(t.subrange(0, q), p);
    assert(t.subrange(0, q) =~= t.subrange(0, q));
    lemma_dot_count_prefix(t, q + 1);
    lemma_dot_count_step(t, q);
}

proof fn lemma_dot_count_ge1(t: Seq<char>, p: int)
    requires
        0 <= p < t.len(),
        t[p] == '.',
    ensures
        dot_count(t) >= 1,
    decreases t.len(),
{
    if p < t.len() - 1 {
        lemma_dot_count_ge1(t.subrange(0, t.len() - 1), p);
    }
}

/// Dots of a prefix are dots of the whole.
proof fn lemma_dot_count_prefix(t: Seq<char>, k: int)
    requires
        0 <= k <= t.len(),
    ensures
        dot_count(t.subrange(0, k)) <= dot_count(t),
    decreases t.len() - k,
{
    if k < t.len() {
        lemma_dot_count_prefix(t, k + 1);
        lemma_dot_count_step(t, k);
    } else {
        assert(t.subrange(0, k) =~= t);
    }
}

/// Digits `lo..hi` of `v` as a number, or `None` when that number exceeds `cap`.
fn digits_upto(v: &[char], lo: usize, hi: usize, cap: u128) -> (r: Option<u128>)
    requires
        lo <= hi <= v.len(),
        all_digits(v@.subrange(lo as int, hi as int)),
        cap <= 0x1_0000_0000_0000_0000_0000_0000,
    ensures
        match r {
            Some(x) => x == digits_value(v@.subrange(lo as int, hi as int)) && x <= cap,
            None => digits_value(v@.subrange(lo as int, hi as int)) > cap,
        },
{
    let mut acc: u128 = 0;
    let mut i: usize = lo;
    assert(v@.subrange(lo as int, lo as int) =~= Seq::<char>::empty());
    while i < hi
        invariant
            lo <= i <= hi <= v.len(),
            all_digits(v@.subrange(lo as int, hi as int)),
            cap <= 0x1_0000_0000_0000_0000_0000_0000,
            acc == digits_value(v@.subrange(lo as int, i as int)),
            acc <= cap,
        decreases hi - i,
    {
        let ghost w = v@.subrange(lo as int, hi as int);
        assert(is_ascii_digit(w[i - lo]));
        assert(w[i - lo] == v@[i as int]);
        let d = (v[i] as u32 - '0' as u32) as u128;
        assert(v@.subrange(lo as int, i + 1).subrange(0, i - lo) =~= v@.subrange(
            lo as int,
            i as int,
        ));
        let next = acc * 10 + d;
        i = i + 1;
        if next > cap {
            proof {
                lemma_digits_prefix(w, i - lo);
                assert(w.subrange(0, i - lo) =~= v@.subrange(lo as int, i as int));
            }
            return None;
        }
        acc = next;
    }
    Some(acc)
}

/// The bytes one unit of the given (upper-cased) suffix stands for.
fn unit_of(u: &[char]) -> (r: Option<u64>)
    ensures
        match r {
            Some(m) => unit_bytes(u@) == Some(m as nat),
            None => unit_bytes(u@) is None,
        },
{
    if chars_eq(u, "") || chars_eq(u, "B") {
        Some(1)
    } else if chars_eq(u, "K") || chars_eq(u, "KB") {
        Some(1000)
    } else if chars_eq(u, "M") || chars_eq(u, "MB") {
        Some(1000000)
    } else if chars_eq(u, "G") || chars_eq(u, "GB") {
        Some(1000000000)
    } else if chars_eq(u, "T") || chars_eq(u, "TB") {
        Some(1000000000000)
    } else if chars_eq(u, "P") || chars_eq(u, "PB") {
        Some(1000000000000000)
    } else if chars_eq(u, "KIB") {
        Some(1024)
    } else if chars_eq(u, "MIB") {
        Some(1048576)
    } else if chars_eq(u, "GIB") {
        Some(1073741824)
    } else if chars_eq(u, "TIB") {
        Some(1099511627776)
    } else if chars_eq(u, "PIB") {
        Some(1125899906842624)
    } else {
        None
    }
}

/// Whether `t` is a plain integer as `u64::from_str` reads it, and its value.
fn plain_value(t: &[char]) -> (r: Option<u64>)
    ensures
        match r {
            Some(v) => plain_u64(t@) == Some(v as nat),
            None => plain_u64(t@) is None,
        },
{
    let lo: usize = if t.len() > 0 && t[0] == '+' {
        1
    } else {
        0
    };
    let ghost d = t@.subrange(lo as int, t.len() as int);
    assert(lo == 0 ==> d =~= t@);
    if lo >= t.len() {
        return None;
    }
    let mut i: usize = lo;
    while i < t.len()
        invariant
            lo <= i <= t.len(),
            d == t@.subrange(lo as int, t.len() as int),
            d == (if t@.len() > 0 && t@[0] == '+' {
                t@.subrange(1, t@.len() as int)
            } else {
                t@
            }),
            forall|j: int| lo <= j < i ==> is_ascii_digit(#[trigger] t@[j]),
        decreases t.len() - i,
    {
        if !('0' <= t[i] && t[i] <= '9') {
            assert(d[i - lo] == t@[i as int]);
            return None;
        }
        i = i + 1;
    }
    assert(all_digits(d)) by {
        assert forall|j: int| 0 <= j < d.len() implies is_ascii_digit(#[trigger] d[j]) by {
            assert(d[j] == t@[j + lo]);
        }
    }
    match digits_upto(t, lo, t.len(), 0xffff_ffff_ffff_ffff) {
        Some(x) => Some(x as u64),
        None => None,
    }
}

/// Parses a human-readable size into bytes (see `parse_size_spec`).
pub fn parse_size(s: &str) -> (r: Result<u64, NofsError>)
    ensures
        match r {
            Ok(v) => parse_size_spec(s@) == Some(v as nat),
            Err(e) => parse_size_spec(s@) is None && e is Parse,
        },
{
    let all = to_chars(s);
    let t = trim_chars(all.as_slice());
    match plain_value(t.as_slice()) {
        Some(v) => return Ok(v),
        None => {},
    }
    // the number: digits and dots
    let mut k: usize = 0;
    let mut first_dot_pos: usize = 0;
    let mut dots: usize = 0;
    let mut second_dot: usize = 0;
    while k < t.len() && (('0' <= t[k] && t[k] <= '9') || t[k] == '.')
        invariant
            k <= t.len(),
            forall|i: int| 0 <= i < k ==> is_ascii_digit(#[trigger] t@[i]) || t@[i] == '.',
            dots <= k,
            dots == 0 ==> forall|i: int| 0 <= i < k ==> t@[i] != '.',
            dots >= 1 ==> first_dot_pos < k && t@[first_dot_pos as int] == '.',
            dots >= 1 ==> forall|i: int| 0 <= i < first_dot_pos ==> t@[i] != '.',
            dots == 1 ==> forall|i: int| 0 <= i < k && i != first_dot_pos ==> t@[i] != '.',
            dots >= 2 ==> first_dot_pos < second_dot < k && t@[second_dot as int] == '.',
        decreases t.len() - k,
    {
        if t[k] == '.' {
            if dots == 0 {
                first_dot_pos = k;
            } else if dots == 1 {
                second_dot = k;
            }
            if dots < 2 {
                dots = dots + 1;
            }
        }
        k = k + 1;
    }
    proof {
        lemma_number_len_at(t@, k as int);
    }
    let ghost num = t@.subrange(0, k as int);
    let rest = chars_range(t.as_slice(), k, t.len());
    let rest_str = string_of(rest.as_slice());
    let (rlo, rhi) = trim_bounds(rest.as_slice());
    let rest_trimmed = string_of(chars_range(rest.as_slice(), rlo, rhi).as_slice());
    let unit_text = to_uppercase(rest_trimmed.as_str());
    let unit_chars = to_chars(unit_text.as_str());
    let m = match unit_of(unit_chars.as_slice()) {
        Some(m) => m,
        None => {
            return Err(NofsError::Parse(join2("Invalid size suffix: ", s)));
        },
    };
    assert(m >= 1 && m <= 1125899906842624);
    if dots == 0 {
        proof {
            lemma_dot_count_zero(num);
            lemma_no_dots_digits(num);
        }
        if k == 0 {
            return Err(NofsError::Parse(join2("Invalid size number in ", s)));
        }
        match digits_upto(t.as_slice(), 0, k, 0xffff_ffff_ffff_ffff) {
            None => {
                proof {
                    lemma_mul_inequality(1, m as int, digits_value(num) as int);
                    lemma_mul_is_commutative(m as int, digits_value(num) as int);
                }
                return Err(NofsError::Parse(join2("Size exceeds maximum value: ", s)));
            },
            Some(x) => {
                assert(x * (m as u128) <= 0xffff_ffff_ffff_ffff * 1125899906842624) by {
                    lemma_mul_inequality(x as int, 0xffff_ffff_ffff_ffff, m as int);
                    lemma_mul_inequality(m as int, 1125899906842624, 0xffff_ffff_ffff_ffff);
                    lemma_mul_is_commutative(m as int, 0xffff_ffff_ffff_ffff);
                }
                let total: u128 = x * (m as u128);
                if total > 0xffff_ffff_ffff_ffff {
                    return Err(NofsError::Parse(join2("Size exceeds maximum value: ", s)));
                }
                return Ok(total as u64);
            },
        }
    }
    if dots >= 2 {
        proof {
            lemma_dot_count_many(num, first_dot_pos as int, second_dot as int);
        }
        return Err(NofsError::Parse(join2("Invalid size number in ", s)));
    }
    if k < 2 {
        return Err(NofsError::Parse(join2("Invalid size number in ", s)));
    }
    // one dot: a decimal number
    let p = first_dot_pos;
    proof {
        lemma_one_dot_split(num, p as int);
        assert(num.subrange(0, p as int) =~= t@.subrange(0, p as int));
        assert(num.subrange(p + 1, num.len() as int) =~= t@.subrange(p + 1, k as int));
    }
    let ghost int_part = t@.subrange(0, p as int);
    let ghost frac = t@.subrange(p + 1, k as int);
    let frac_digits = chars_range(t.as_slice(), p + 1, k);
    assert(frac_digits@ == frac);
    proof {
        lemma_digits_concat(int_part, frac);
    }
    let whole = match digits_upto(t.as_slice(), 0, p, 0x100_0000_0000_0000) {
        Some(x) => x,
        None => {
            proof {
                lemma_pow10_pos(frac.len());
                assert(digits_value(int_part + frac) >= 0x100_0000_0000_0000 * pow10(frac.len()))
                    by (nonlinear_arith)
                    requires
                        digits_value(int_part + frac) == digits_value(int_part) * pow10(frac.len())
                            + digits_value(frac),
                        digits_value(int_part) > 0x100_0000_0000_0000,
                ;
            }
            return Err(NofsError::Parse(join2("Size exceeds maximum value: ", s)));
        },
    };
    match decimal_bytes_exec(whole, frac_digits, m, Ghost(digits_value(int_part + frac))) {
        Some(v) => Ok(v),
        None => Err(NofsError::Parse(join2("Size exceeds maximum value: ", s))),
    }
}

/// A decimal digit's character has that value.
proof fn lemma_digit_value(k: nat)
    requires
        k < 10,
    ensures
        digit_value(digit_char(k)) == k,
        is_ascii_digit(digit_char(k)),
{
}

/// The decimal form of a number is a run of digits, not starting with `+`, whose
/// value is the number.
proof fn lemma_decimal_digits(n: nat)
    ensures
        decimal(n).len() >= 1,
        all_digits(decimal(n)),
        digits_value(decimal(n)) == n,
    decreases n,
{
    let d = decimal(n);
    lemma_digit_value(n % 10);
    if n < 10 {
        lemma_digit_value(n);
        assert(d.subrange(0, 0) =~= Seq::<char>::empty());
        assert(digits_value(d) == digits_value(d.subrange(0, 0)) * 10 + digit_value(d[0]));
    }
    if n >= 10 {
        lemma_decimal_digits(n / 10);
        assert(d.subrange(0, d.len() - 1) =~= decimal(n / 10));
        assert(d[d.len() - 1] == digit_char(n % 10));
        assert(digits_value(d) == digits_value(decimal(n / 10)) * 10 + digit_value(
            digit_char(n % 10),
        ));
        assert forall|i: int| 0 <= i < d.len() implies is_ascii_digit(#[trigger] d[i]) by {
            if i < d.len() - 1 {
                assert(d[i] == decimal(n / 10)[i]);
            }
        }
    }
}

/// A plain byte count parses back to itself: `parse_size` of the decimal form of
/// `n` (as `decimal_string` writes it) is `n`.
pub proof fn lemma_parse_size_of_decimal(n: u64)
    ensures
        parse_size_spec(decimal(n as nat)) == Some(n as nat),
{
    let d = decimal(n as nat);
    lemma_decimal_digits(n as nat);
    assert(is_ascii_digit(d[0]));
    assert(is_ascii_digit(d[d.len() - 1]));
    assert(trim_start(d) == d);
    assert(trim_end(d) == d);
    assert(trim(d) == d);
}

/// Blanks in front of a text are dropped by `trim_start`.
proof fn lemma_trim_start_blanks(w: Seq<char>, x: Seq<char>)
    requires
        forall|i: int| 0 <= i < w.len() ==> is_ws(#[trigger] w[i]),
    ensures
        trim_start(w + x) == trim_start(x),
    decreases w.len(),
{
    if w.len() > 0 {
        let w1 = w.subrange(1, w.len() as int);
        assert((w + x)[0] == w[0]);
        assert((w + x).subrange(1, (w + x).len() as int) =~= w1 + x);
        assert forall|i: int| 0 <= i < w1.len() implies is_ws(#[trigger] w1[i]) by {
            assert(w1[i] == w[i + 1]);
        }
        lemma_trim_start_blanks(w1, x);
    } else {
        assert(w + x =~= x);
    }
}

/// Blanks after a text are dropped by `trim_end`.
proof fn lemma_trim_end_blanks(x: Seq<char>, w: Seq<char>)
    requires
        forall|i: int| 0 <= i < w.len() ==> is_ws(#[trigger] w[i]),
    ensures
        trim_end(x + w) == trim_end(x),
    decreases w.len(),
{
    if w.len() > 0 {
        let w1 = w.subrange(0, w.len() - 1);
        assert((x + w)[(x + w).len() - 1] == w[w.len() - 1]);
        assert((x + w).subrange(0, (x + w).len() - 1) =~= x + w1);
        assert forall|i: int| 0 <= i < w1.len() implies is_ws(#[trigger] w1[i]) by {
            assert(w1[i] == w[i]);
        }
        lemma_trim_end_blanks(x, w1);
    } else {
        assert(x + w =~= x);
    }
}

/// A whole number between blanks parses to itself: `parse_size` of the decimal form
/// of `n` with any whitespace before and after it is `n`.
pub proof fn law_parse_size_of_blanked_decimal(n: u64, before: Seq<char>, after: Seq<char>)
    requires
        forall|i: int| 0 <= i < before.len() ==> is_ws(#[trigger] before[i]),
        forall|i: int| 0 <= i < after.len() ==> is_ws(#[trigger] after[i]),
    ensures
        parse_size_spec(before + decimal(n as nat) + after) == Some(n as nat),
{
    let d = decimal(n as nat);
    lemma_decimal_digits(n as nat);
    lemma_parse_size_of_decimal(n);
    assert(is_ascii_digit(d[0]));
    assert(is_ascii_digit(d[d.len() - 1]));
    assert(before + d + after =~= before + (d + after));
    lemma_trim_start_blanks(before, d + after);
    assert((d + after)[0] == d[0]);
    assert(trim_start(d + after) == d + after);
    lemma_trim_end_blanks(d, after);
    assert(trim_end(d) == d);
    assert(trim(before + d + after) == d);
}

/// The bytes of the decimal number `n / 10^k` times the unit `m`, as binary64
/// arithmetic gives them: the number is rounded to 53 significant bits (`x / 2^l`,
/// or `x * 2^d` when it reaches `2^52`), then its product by `m`, each to the
/// nearest value, ties to even; a product above `MAX_DECIMAL_SIZE` is refused, any
/// other is truncated to a whole number. (A number of `2^56` or more is refused at
/// once: it rounds to at least `2^56`, and so does its product by a unit.)
pub open spec fn decimal_bytes(n: nat, k: nat, m: nat) -> Option<nat> {
    if n == 0 {
        Some(0)
    } else if n >= 0x100_0000_0000_0000 * pow10(k) {
        // a number of 2^56 or more rounds to at least 2^56: refused
        None
    } else {
        let q = pow10(k);
        let l = quotient_shift(n, q);
        if l > 0 {
            let y = nearest_53(round_half_even(n * pow2(l), q) * m);
            if y <= MAX_DECIMAL_SIZE * pow2(l) {
                Some(y / pow2(l))
            } else {
                None
            }
        } else {
            let d = cover_shift(n, q);
            let y = nearest_53(round_half_even(n, q * pow2(d)) * m) * pow2(d);
            if y <= MAX_DECIMAL_SIZE {
                Some(y)
            } else {
                None
            }
        }
    }
}

/// A run of digits is worth less than `10` to its length.
proof fn lemma_digits_below(d: Seq<char>)
    requires
        all_digits(d),
    ensures
        digits_value(d) < pow10(d.len()),
    decreases d.len(),
{
    if d.len() > 0 {
        let d1 = d.subrange(0, d.len() - 1);
        assert(all_digits(d1)) by {
            assert forall|i: int| 0 <= i < d1.len() implies is_ascii_digit(#[trigger] d1[i]) by {
                assert(d1[i] == d[i]);
            }
        }
        lemma_digits_below(d1);
        assert(is_ascii_digit(d[d.len() - 1]));
        assert(digit_value(d[d.len() - 1]) <= 9);
    }
}

/// A run of digits is worth 0 exactly when every digit is `0`.
proof fn lemma_digits_zero(d: Seq<char>)
    requires
        all_digits(d),
    ensures
        (digits_value(d) == 0) == (forall|i: int| 0 <= i < d.len() ==> d[i] == '0'),
    decreases d.len(),
{
    if d.len() > 0 {
        let d1 = d.subrange(0, d.len() - 1);
        assert(all_digits(d1)) by {
            assert forall|i: int| 0 <= i < d1.len() implies is_ascii_digit(#[trigger] d1[i]) by {
                assert(d1[i] == d[i]);
            }
        }
        lemma_digits_zero(d1);
        assert(is_ascii_digit(d[d.len() - 1]));
        if forall|i: int| 0 <= i < d.len() ==> d[i] == '0' {
            assert forall|i: int| 0 <= i < d1.len() implies d1[i] == '0' by {
                assert(d1[i] == d[i]);
            }
        }
        if digits_value(d) == 0 {
            assert forall|i: int| 0 <= i < d.len() implies d[i] == '0' by {
                if i < d.len() - 1 {
                    assert(d1[i] == d[i]);
                }
            }
        }
    }
}

/// One digit is worth its value.
proof fn lemma_digits_single(c: char)
    ensures
        digits_value(seq![c]) == digit_value(c),
{
    let d = seq![c];
    assert(d.subrange(0, 0) =~= Seq::<char>::empty());
    assert(digits_value(d.subrange(0, 0)) == 0);
}

/// `16^k` is at least `10^k`: `2^(4k) >= 10^k`.
proof fn lemma_pow2_four_times(k: nat)
    ensures
        pow2(4 * k) >= pow10(k),
    decreases k,
{
    vstd::arithmetic::power2::lemma2_to64();
    if k > 0 {
        let j = (k - 1) as nat;
        lemma_pow2_four_times(j);
        vstd::arithmetic::power2::lemma_pow2_adds(4 * j, 4);
        assert(4 * k == 4 * j + 4);
        assert(pow2(4 * k) == pow2(4 * j) * pow2(4));
        assert(pow10(k) == 10 * pow10(j));
        assert(pow2(4 * j) * pow2(4) >= 10 * pow10(j)) by (nonlinear_arith)
            requires
                pow2(4 * j) >= pow10(j),
                pow2(4) == 16,
        ;
    }
}

/// How `a / b` rounds when `a = q * b + r` with `0 <= r < b`.
proof fn lemma_round_parts(a: nat, b: nat, q: nat, r: nat)
    requires
        b > 0,
        r < b,
        a == q * b + r,
    ensures
        round_half_even(a, b) == if 2 * r > b {
            q + 1
        } else if 2 * r < b {
            q
        } else if q % 2 == 1 {
            q + 1
        } else {
            q
        },
{
    vstd::arithmetic::div_mod::lemma_fundamental_div_mod_converse(a as int, b as int, q as int, r as int);
}

/// Doubles a run of digits in place: twice its value is the carry (0 or 1) times `10`
/// to its length plus the new value.
fn double_digits(d: &mut Vec<char>) -> (c: u8)
    requires
        all_digits(old(d)@),
    ensures
        final(d)@.len() == old(d)@.len(),
        all_digits(final(d)@),
        c <= 1,
        2 * digits_value(old(d)@) == c * pow10(old(d)@.len()) + digits_value(final(d)@),
{
    let ghost orig = d@;
    let n = d.len();
    let mut j: usize = n;
    let mut c: u8 = 0;
    assert(orig.subrange(n as int, n as int) =~= Seq::<char>::empty());
    assert(d@.subrange(n as int, n as int) =~= Seq::<char>::empty());
    while j > 0
        invariant
            n == orig.len() == d@.len(),
            j <= n,
            c <= 1,
            all_digits(orig),
            forall|i: int| 0 <= i < j ==> d@[i] == orig[i],
            forall|i: int| j <= i < n ==> is_ascii_digit(#[trigger] d@[i]),
            2 * digits_value(orig.subrange(j as int, n as int)) == c * pow10((n - j) as nat)
                + digits_value(d@.subrange(j as int, n as int)),
        decreases j,
    {
        let x = d[j - 1];
        assert(is_ascii_digit(orig[j - 1]));
        let xv: u8 = (x as u32 - '0' as u32) as u8;
        assert(xv as nat == digit_value(orig[j - 1]));
        let y: u8 = 2 * xv + c;
        let nd = crate::text::digit_of((y % 10) as u64);
        let ghost sn_old = d@.subrange(j as int, n as int);
        let ghost p = pow10((n - j) as nat);
        proof {
            lemma_digit_value((y % 10) as nat);
            let so = orig.subrange(j - 1, n as int);
            assert(so =~= seq![orig[j - 1]] + orig.subrange(j as int, n as int));
            lemma_digits_concat(seq![orig[j - 1]], orig.subrange(j as int, n as int));
            lemma_digits_single(orig[j - 1]);
            lemma_digits_concat(seq![nd], sn_old);
            lemma_digits_single(nd);
            assert(digits_value(so) == (xv as nat) * p + digits_value(orig.subrange(j as int, n as int)));
        }
        d.set(j - 1, nd);
        proof {
            assert(pow10((n - j + 1) as nat) == 10 * p);
            assert(d@.subrange(j as int, n as int) =~= sn_old);
            assert(d@.subrange(j - 1, n as int) =~= seq![nd] + sn_old);
            assert(digits_value(d@.subrange(j - 1, n as int)) == ((y % 10) as nat) * p + digits_value(sn_old));
            assert(2 * ((xv as nat) * p) + (c as nat) * p == (y as nat) * p) by (nonlinear_arith)
                requires
                    y == 2 * xv + c,
            ;
            assert((y as nat) * p == ((y / 10) as nat) * (10 * p) + ((y % 10) as nat) * p) by (nonlinear_arith)
                requires
                    y < 20,
            ;
            assert(2 * digits_value(orig.subrange(j - 1, n as int)) == ((y / 10) as nat) * pow10((n - j + 1) as nat)
                + digits_value(d@.subrange(j - 1, n as int)));
        }
        c = y / 10;
        j = j - 1;
    }
    assert(orig.subrange(0, n as int) =~= orig);
    assert(d@.subrange(0, n as int) =~= d@);
    assert(all_digits(d@)) by {
        assert forall|i: int| 0 <= i < n implies is_ascii_digit(#[trigger] d@[i]) by {}
    }
    c
}

/// Whether every digit of the run is `0`, that is whether it is worth 0.
fn digits_all_zero(d: &[char]) -> (r: bool)
    requires
        all_digits(d@),
    ensures
        r == (digits_value(d@) == 0),
{
    proof {
        lemma_digits_zero(d@);
    }
    let mut i: usize = 0;
    while i < d.len()
        invariant
            i <= d@.len(),
            all_digits(d@),
            forall|j: int| 0 <= j < i ==> d@[j] == '0',
        decreases d.len() - i,
    {
        if d[i] != '0' {
            assert(!(forall|j: int| 0 <= j < d@.len() ==> d@[j] == '0'));
            proof {
                lemma_digits_zero(d@);
            }
            return false;
        }
        i = i + 1;
    }
    true
}

/// The bytes of `n / 10^k` times `m` for a number below `2^52` (see
/// `decimal_bytes`), given its whole part and its fraction digits.
fn decimal_small(whole: u128, frac: Vec<char>, m: u64, Ghost(n): Ghost<nat>) -> (r: Option<u64>)
    requires
        whole < 0x10_0000_0000_0000,
        all_digits(frac@),
        1 <= m <= 0x4_0000_0000_0000,
        n == whole * pow10(frac@.len()) + digits_value(frac@),
        n >= 1,
    ensures
        match r {
            Some(v) => decimal_bytes(n, frac@.len(), m as nat) == Some(v as nat),
            None => decimal_bytes(n, frac@.len(), m as nat) is None,
        },
{
    let klen = frac.len();
    let ghost k = frac@.len();
    let ghost q10 = pow10(k);
    proof {
        vstd::arithmetic::power2::lemma2_to64();
        vstd::arithmetic::power2::lemma2_to64_rest();
        lemma_pow10_pos(k);
        lemma_digits_below(frac@);
        assert(n < 0x100_0000_0000_0000 * q10) by (nonlinear_arith)
            requires
                n == whole * q10 + digits_value(frac@),
                digits_value(frac@) < q10,
                whole < 0x10_0000_0000_0000,
        ;
    }
    let mut rem = frac;
    let mut q: u128 = whole;
    let mut i: u128 = 0;
    while q < 0x10_0000_0000_0000
        invariant
            rem@.len() == k,
            k == klen,
            all_digits(rem@),
            q10 == pow10(k),
            q10 >= 1,
            n >= 1,
            n * pow2(i as nat) == q * q10 + digits_value(rem@),
            q < 0x20_0000_0000_0000,
            i <= 52 + 4 * k,
            forall|j: nat| j < i ==> n * #[trigger] pow2(j) < pow2(52) * q10,
            pow2(52) == 0x10_0000_0000_0000,
        decreases 52 + 4 * k - i,
    {
        proof {
            lemma_digits_below(rem@);
            assert(n * pow2(i as nat) < pow2(52) * q10) by (nonlinear_arith)
                requires
                    n * pow2(i as nat) == q * q10 + digits_value(rem@),
                    digits_value(rem@) < q10,
                    q < 0x10_0000_0000_0000,
                    pow2(52) == 0x10_0000_0000_0000,
            ;
            assert(i < 52 + 4 * k) by {
                if i == 52 + 4 * k {
                    lemma_pow2_four_times(k);
                    vstd::arithmetic::power2::lemma_pow2_adds(52, 4 * k);
                    assert(n * pow2(i as nat) >= pow2(52) * q10) by (nonlinear_arith)
                        requires
                            n >= 1,
                            pow2(i as nat) == pow2(52) * pow2(4 * k),
                            pow2(4 * k) >= q10,
                    ;
                }
            }
            vstd::arithmetic::power2::lemma_pow2_unfold((i + 1) as nat);
        }
        let ghost old_rem = digits_value(rem@);
        let c = double_digits(&mut rem);
        proof {
            assert(n * pow2((i + 1) as nat) == (2 * q + c) * q10 + digits_value(rem@)) by (nonlinear_arith)
                requires
                    n * pow2(i as nat) == q * q10 + old_rem,
                    pow2((i + 1) as nat) == 2 * pow2(i as nat),
                    2 * old_rem == c * q10 + digits_value(rem@),
            ;
        }
        q = 2 * q + c as u128;
        i = i + 1;
    }
    proof {
        assert(n * pow2(i as nat) >= pow2(52) * q10) by (nonlinear_arith)
            requires
                n * pow2(i as nat) == q * q10 + digits_value(rem@),
                q >= 0x10_0000_0000_0000,
                pow2(52) == 0x10_0000_0000_0000,
        ;
        lemma_quotient_shift(n, q10, i as nat);
        assert(i > 0) by {
            if i == 0 {
                assert(pow2(0) == 1);
                assert(n * pow2(0) < pow2(52) * q10) by (nonlinear_arith)
                    requires
                        n == whole * q10 + digits_value(frac@),
                        digits_value(frac@) < q10,
                        whole < 0x10_0000_0000_0000,
                        pow2(0) == 1,
                        pow2(52) == 0x10_0000_0000_0000,
                ;
            }
        }
        lemma_digits_below(rem@);
    }
    let ghost r0 = digits_value(rem@);
    let c = double_digits(&mut rem);
    let z = digits_all_zero(rem.as_slice());
    let up = if c == 1 && !z {
        true
    } else if c == 1 && z {
        q % 2 == 1
    } else {
        false
    };
    proof {
        lemma_digits_below(rem@);
        lemma_round_parts((n * pow2(i as nat)) as nat, q10, q as nat, r0);
        if c == 1 && !z {
            assert(2 * r0 > q10);
        } else if c == 1 && z {
            assert(2 * r0 == q10);
        } else {
            assert(2 * r0 < q10);
        }
    }
    let xm: u128 = if up { q + 1 } else { q };
    assert(xm <= 0x20_0000_0000_0000);
    assert(xm * (m as u128) <= 0x80_0000_0000_0000_0000_0000_0000) by (nonlinear_arith)
        requires
            xm <= 0x20_0000_0000_0000,
            m <= 0x4_0000_0000_0000,
    ;
    let y = nearest_53_wide(xm * (m as u128));
    assert(y <= 0x100_0000_0000_0000_0000_0000_0000) by (nonlinear_arith)
        requires
            y <= 2 * (xm * (m as u128)),
            xm <= 0x20_0000_0000_0000,
            m <= 0x4_0000_0000_0000,
    ;
    if i > 104 {
        proof {
            vstd::arithmetic::power2::lemma_pow2_adds(64, 41);
            assert(pow2(105) == 0x200_0000_0000_0000_0000_0000_0000);
            vstd::arithmetic::power2::lemma_pow2_strictly_increases(104, i as nat);
            vstd::arithmetic::power2::lemma_pow2_adds(64, 40);
            assert(pow2(104) == 0x100_0000_0000_0000_0000_0000_0000);
            assert((y as nat) / pow2(i as nat) == 0) by (nonlinear_arith)
                requires
                    y <= 0x100_0000_0000_0000_0000_0000_0000,
                    pow2(i as nat) > 0x100_0000_0000_0000_0000_0000_0000,
            ;
            assert(y <= MAX_DECIMAL_SIZE * pow2(i as nat)) by (nonlinear_arith)
                requires
                    y <= 0x100_0000_0000_0000_0000_0000_0000,
                    pow2(i as nat) > 0x100_0000_0000_0000_0000_0000_0000,
                    MAX_DECIMAL_SIZE >= 1,
            ;
        }
        return Some(0);
    }
    let pl = pow2_exec(i as u64);
    let fits = if pl >= 0x8_0000_0000_0000 {
        assert(y <= 0x40_0000_0000_0000 * pl) by (nonlinear_arith)
            requires
                y <= 0x100_0000_0000_0000_0000_0000_0000,
                pl >= 0x8_0000_0000_0000,
        ;
        true
    } else {
        y <= (MAX_DECIMAL_SIZE as u128) * pl
    };
    if fits {
        assert(y / pl <= MAX_DECIMAL_SIZE) by (nonlinear_arith)
            requires
                y <= (MAX_DECIMAL_SIZE as u128) * pl,
                pl >= 1,
        ;
        Some((y / pl) as u64)
    } else {
        None
    }
}

/// The bytes of `n / 10^k` times `m` for a number from `2^52` to `2^56` (see
/// `decimal_bytes`), given its whole part and its fraction digits.
fn decimal_large(whole: u128, frac: Vec<char>, m: u64, Ghost(n): Ghost<nat>) -> (r: Option<u64>)
    requires
        0x10_0000_0000_0000 <= whole < 0x100_0000_0000_0000,
        all_digits(frac@),
        1 <= m <= 0x4_0000_0000_0000,
        n == whole * pow10(frac@.len()) + digits_value(frac@),
    ensures
        match r {
            Some(v) => decimal_bytes(n, frac@.len(), m as nat) == Some(v as nat),
            None => decimal_bytes(n, frac@.len(), m as nat) is None,
        },
{
    let ghost k = frac@.len();
    let ghost q10 = pow10(k);
    let ghost f = digits_value(frac@);
    proof {
        vstd::arithmetic::power2::lemma2_to64();
        vstd::arithmetic::power2::lemma2_to64_rest();
        lemma_pow10_pos(k);
        lemma_digits_below(frac@);
        assert(n < 0x100_0000_0000_0000 * q10) by (nonlinear_arith)
            requires
                n == whole * q10 + f,
                f < q10,
                whole < 0x100_0000_0000_0000,
        ;
        assert(n >= 1) by (nonlinear_arith)
            requires
                n == whole * q10 + f,
                q10 >= 1,
                whole >= 1,
        ;
        assert(pow2(0) == 1);
        assert(n * pow2(0) >= pow2(52) * q10) by (nonlinear_arith)
            requires
                n == whole * q10 + f,
                whole >= 0x10_0000_0000_0000,
                pow2(0) == 1,
                pow2(52) == 0x10_0000_0000_0000,
        ;
        lemma_quotient_shift(n, q10, 0);
    }
    let two53: u128 = 0x20_0000_0000_0000;
    let mut d: u64 = 0;
    let mut dd: u128 = 1;
    while whole >= two53 * dd
        invariant
            dd == pow2(d as nat),
            1 <= dd <= 0x10,
            d <= 4,
            two53 == 0x20_0000_0000_0000,
            pow2(53) == two53,
            whole <= 0x100_0000_0000_0000,
            forall|j: nat| j < d ==> whole >= pow2(53) * #[trigger] pow2(j),
        decreases 0x10 - dd,
    {
        proof {
            vstd::arithmetic::power2::lemma_pow2_unfold((d + 1) as nat);
            assert(dd <= 8) by (nonlinear_arith)
                requires
                    whole >= two53 * dd,
                    whole <= 0x100_0000_0000_0000,
                    two53 == 0x20_0000_0000_0000,
            ;
            assert(d < 4) by {
                if d == 4 {
                    vstd::arithmetic::power2::lemma2_to64();
                }
            }
        }
        d = d + 1;
        dd = dd * 2;
    }
    proof {
        assert(n < pow2(53) * q10 * pow2(d as nat)) by (nonlinear_arith)
            requires
                n == whole * q10 + f,
                f < q10,
                whole < two53 * dd,
                dd == pow2(d as nat),
                pow2(53) == two53,
        ;
        assert forall|j: nat| j < d implies n >= pow2(53) * q10 * #[trigger] pow2(j) by {
            assert(whole >= pow2(53) * pow2(j));
            assert(n >= pow2(53) * q10 * pow2(j)) by (nonlinear_arith)
                requires
                    n == whole * q10 + f,
                    whole >= pow2(53) * pow2(j),
            ;
        }
        lemma_cover_shift(n, q10, d as nat);
    }
    let big_q = whole / dd;
    let r = whole % dd;
    let mut rem = frac;
    let ghost r_f = digits_value(rem@);
    let c = double_digits(&mut rem);
    let z = digits_all_zero(rem.as_slice());
    let s2 = 2 * r + c as u128;
    let up = if s2 > dd {
        true
    } else if s2 < dd {
        false
    } else if !z {
        true
    } else {
        big_q % 2 == 1
    };
    proof {
        lemma_digits_below(rem@);
        let bigr: nat = (r as nat) * q10 + f;
        assert(whole == big_q * dd + r) by (nonlinear_arith)
            requires
                big_q == whole / dd,
                r == whole % dd,
                dd >= 1,
        ;
        assert(n == big_q * (q10 * dd) + bigr) by (nonlinear_arith)
            requires
                n == whole * q10 + f,
                whole == big_q * dd + r,
                bigr == r * q10 + f,
        ;
        assert(bigr < q10 * dd) by (nonlinear_arith)
            requires
                bigr == r * q10 + f,
                f < q10,
                r < dd,
        ;
        assert(2 * bigr == s2 * q10 + digits_value(rem@)) by (nonlinear_arith)
            requires
                bigr == r * q10 + f,
                2 * f == c * q10 + digits_value(rem@),
                s2 == 2 * r + c,
        ;
        assert(q10 * dd > 0) by (nonlinear_arith)
            requires
                q10 >= 1,
                dd >= 1,
        ;
        lemma_round_parts(n, q10 * (dd as nat), big_q as nat, bigr);
        if s2 > dd {
            assert(2 * bigr > q10 * dd) by (nonlinear_arith)
                requires
                    2 * bigr == s2 * q10 + digits_value(rem@),
                    s2 >= dd + 1,
                    q10 >= 1,
            ;
        } else if s2 < dd {
            assert(2 * bigr < q10 * dd) by (nonlinear_arith)
                requires
                    2 * bigr == s2 * q10 + digits_value(rem@),
                    s2 + 1 <= dd,
                    digits_value(rem@) < q10,
            ;
        } else if !z {
            assert(2 * bigr > q10 * dd) by (nonlinear_arith)
                requires
                    2 * bigr == s2 * q10 + digits_value(rem@),
                    s2 == dd,
                    digits_value(rem@) > 0,
            ;
        } else {
            assert(2 * bigr == q10 * dd) by (nonlinear_arith)
                requires
                    2 * bigr == s2 * q10 + digits_value(rem@),
                    s2 == dd,
                    digits_value(rem@) == 0,
            ;
        }
    }
    let xm: u128 = if up { big_q + 1 } else { big_q };
    assert(big_q < two53) by (nonlinear_arith)
        requires
            big_q == whole / dd,
            whole < two53 * dd,
            dd >= 1,
    ;
    assert(xm * (m as u128) <= 0x80_0000_0000_0000_0000_0000_0000) by (nonlinear_arith)
        requires
            xm <= 0x20_0000_0000_0000,
            m <= 0x4_0000_0000_0000,
    ;
    let x = nearest_53_wide(xm * (m as u128));
    assert(x * dd <= 0x1000_0000_0000_0000_0000_0000_0000) by (nonlinear_arith)
        requires
            x <= 2 * (xm * (m as u128)),
            xm * (m as u128) <= 0x80_0000_0000_0000_0000_0000_0000,
            dd <= 0x10,
    ;
    let y = x * dd;
    if y <= MAX_DECIMAL_SIZE as u128 {
        Some(y as u64)
    } else {
        None
    }
}

/// The bytes of `n / 10^k` times `m` (see `decimal_bytes`), given the whole part of
/// the number (`2^56` standing for any larger one) and its fraction digits.
fn decimal_bytes_exec(whole: u128, frac: Vec<char>, m: u64, Ghost(n): Ghost<nat>) -> (r: Option<u64>)
    requires
        whole <= 0x100_0000_0000_0000,
        all_digits(frac@),
        1 <= m <= 0x4_0000_0000_0000,
        n == whole * pow10(frac@.len()) + digits_value(frac@),
    ensures
        match r {
            Some(v) => decimal_bytes(n, frac@.len(), m as nat) == Some(v as nat),
            None => decimal_bytes(n, frac@.len(), m as nat) is None,
        },
{
    if whole == 0 && digits_all_zero(frac.as_slice()) {
        assert(n == 0);
        return Some(0);
    }
    if whole >= 0x100_0000_0000_0000 {
        proof {
            lemma_pow10_pos(frac@.len());
            assert(n >= 0x100_0000_0000_0000 * pow10(frac@.len())) by (nonlinear_arith)
                requires
                    n == whole * pow10(frac@.len()) + digits_value(frac@),
                    whole >= 0x100_0000_0000_0000,
            ;
        }
        return None;
    }
    proof {
        lemma_pow10_pos(frac@.len());
        assert(n >= 1) by (nonlinear_arith)
            requires
                n == whole * pow10(frac@.len()) + digits_value(frac@),
                pow10(frac@.len()) >= 1,
                whole >= 1 || digits_value(frac@) != 0,
        ;
    }
    if whole < 0x10_0000_0000_0000 {
        decimal_small(whole, frac, m, Ghost(n))
    } else {
        decimal_large(whole, frac, m, Ghost(n))
    }
}

} // verus!
