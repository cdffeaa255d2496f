//! Character-level text helpers shared by the parsers of the library.
//!
//! Strings are handled as sequences of `char`s: every parser first turns its
//! input into a `Vec<char>`, works on it, and turns the pieces it keeps back
//! into `String`s.
use vstd::prelude::*;
use vstd::string::StrSliceExecFns;

verus! {

/// The characters that carry the Unicode `White_Space` property, which is
/// what `str::trim` and `str::split_whitespace` strip and split on.
pub open spec fn is_ws(c: char) -> bool {
    let u = c as u32;
    ||| u == 0x20
    ||| (0x09 <= u && u <= 0x0d)
    ||| u == 0x85
    ||| u == 0xa0
    ||| u == 0x1680
    ||| (0x2000 <= u && u <= 0x200a)
    ||| u == 0x2028
    ||| u == 0x2029
    ||| u == 0x202f
    ||| u == 0x205f
    ||| u == 0x3000
}

/// Decides `is_ws`.
pub fn char_is_ws(c: char) -> (r: bool)
    ensures
        r == is_ws(c),
{
    let u = c as u32;
    u == 0x20 || (0x09 <= u && u <= 0x0d) || u == 0x85 || u == 0xa0 || u == 0x1680 || (0x2000
        <= u && u <= 0x200a) || u == 0x2028 || u == 0x2029 || u == 0x202f || u == 0x205f || u
        == 0x3000
}

pub open spec fn is_ascii_digit(c: char) -> bool {
    '0' <= c && c <= '9'
}

pub open spec fn is_ascii_alpha(c: char) -> bool {
    ('a' <= c && c <= 'z') || ('A' <= c && c <= 'Z')
}

/// An ASCII lowercase letter or an ASCII digit.
pub open spec fn is_lower_or_digit(c: char) -> bool {
    ('a' <= c && c <= 'z') || is_ascii_digit(c)
}

/// An ASCII uppercase letter or an ASCII digit.
pub open spec fn is_upper_or_digit(c: char) -> bool {
    ('A' <= c && c <= 'Z') || is_ascii_digit(c)
}

/// The character of a decimal digit.
pub open spec fn digit_char(d: nat) -> char {
    if d == 0 {
        '0'
    } else if d == 1 {
        '1'
    } else if d == 2 {
        '2'
    } else if d == 3 {
        '3'
    } else if d == 4 {
        '4'
    } else if d == 5 {
        '5'
    } else if d == 6 {
        '6'
    } else if d == 7 {
        '7'
    } else if d == 8 {
        '8'
    } else {
        '9'
    }
}

/// The decimal digits of `n`, without leading zeros (`"0"` for zero).
pub open spec fn decimal(n: nat) -> Seq<char>
    decreases n,
{
    if n < 10 {
        seq![digit_char(n)]
    } else {
        decimal(n / 10).push(digit_char(n % 10))
    }
}

/// The characters of `s` without the leading whitespace.
pub open spec fn trim_start(s: Seq<char>) -> Seq<char>
    decreases s.len(),
{
    if s.len() > 0 && is_ws(s[0]) {
        trim_start(s.subrange(1, s.len() as int))
    } else {
        s
    }
}

/// The characters of `s` without the trailing whitespace.
pub open spec fn trim_end(s: Seq<char>) -> Seq<char>
    decreases s.len(),
{
    if s.len() > 0 && is_ws(s[s.len() - 1]) {
        trim_end(s.subrange(0, s.len() - 1))
    } else {
        s
    }
}

/// What `str::trim` keeps of `s`.
pub open spec fn trim(s: Seq<char>) -> Seq<char> {
    trim_end(trim_start(s))
}

/// What `str::trim_start_matches(c)` keeps of `s`.
pub open spec fn strip_leading(s: Seq<char>, c: char) -> Seq<char>
    decreases s.len(),
{
    if s.len() > 0 && s[0] == c {
        strip_leading(s.subrange(1, s.len() as int), c)
    } else {
        s
    }
}

/// What `str::trim_end_matches(c)` keeps of `s`.
pub open spec fn strip_trailing(s: Seq<char>, c: char) -> Seq<char>
    decreases s.len(),
{
    if s.len() > 0 && s.last() == c {
        strip_trailing(s.drop_last(), c)
    } else {
        s
    }
}

/// The position where `str::trim_end_matches(c)` stops keeping `v`.
pub fn strip_trailing_pos(v: &[char], c: char) -> (r: usize)
    ensures
        r <= v.len(),
        v@.subrange(0, r as int) == strip_trailing(v@, c),
{
    let mut k: usize = v.len();
    assert(v@.subrange(0, k as int) =~= v@);
    while k > 0 && v[k - 1] == c
        invariant
            k <= v.len(),
            strip_trailing(v@, c) == strip_trailing(v@.subrange(0, k as int), c),
        decreases k,
    {
        assert(v@.subrange(0, k as int).drop_last() =~= v@.subrange(0, k - 1));
        k = k - 1;
    }
    k
}

/// The position of the first `c` in `s`, or the length of `s` when there is none.
pub open spec fn first_index(s: Seq<char>, c: char) -> nat
    decreases s.len(),
{
    if s.len() == 0 {
        0
    } else if s[0] == c {
        0
    } else {
        1 + first_index(s.subrange(1, s.len() as int), c)
    }
}

/// The position of the last `c` in `s`, or -1 when there is none.
pub open spec fn last_index(s: Seq<char>, c: char) -> int
    decreases s.len(),
{
    if s.len() == 0 {
        -1
    } else if s.last() == c {
        s.len() - 1
    } else {
        last_index(s.drop_last(), c)
    }
}

/// `last_index` is a position of `c`, with no `c` after it.
pub proof fn lemma_last_index(s: Seq<char>, c: char)
    ensures
        -1 <= last_index(s, c) < s.len(),
        last_index(s, c) >= 0 ==> s[last_index(s, c)] == c,
        forall|j: int| last_index(s, c) < j < s.len() ==> s[j] != c,
    decreases s.len(),
{
    if s.len() > 0 && s.last() != c {
        lemma_last_index(s.drop_last(), c);
        assert forall|j: int| last_index(s, c) < j < s.len() implies s[j] != c by {
            if j < s.len() - 1 {
                assert(s.drop_last()[j] == s[j]);
            }
        }
    }
}

/// The position of the last `c` in `v` (see `last_index`).
pub fn find_last_char(v: &[char], c: char) -> (r: Option<usize>)
    ensures
        match r {
            Some(i) => i as int == last_index(v@, c),
            None => last_index(v@, c) == -1,
        },
{
    let mut k: usize = v.len();
    assert(v@.subrange(0, k as int) =~= v@);
    while k > 0
        invariant
            k <= v@.len(),
            last_index(v@, c) == last_index(v@.subrange(0, k as int), c),
        decreases k,
    {
        assert(v@.subrange(0, k as int).drop_last() =~= v@.subrange(0, k - 1));
        if v[k - 1] == c {
            return Some(k - 1);
        }
        k = k - 1;
    }
    None
}

/// The pieces of `s` between the occurrences of `sep` (what `str::split(sep)` yields).
pub open spec fn split(s: Seq<char>, sep: char) -> Seq<Seq<char>>
    decreases s.len(),
{
    let i = first_index(s, sep);
    if i >= s.len() {
        seq![s]
    } else {
        seq![s.subrange(0, i as int)] + split(s.subrange(i as int + 1, s.len() as int), sep)
    }
}

/// The position of the first whitespace character of `s`, or its length.
pub open spec fn first_ws(s: Seq<char>) -> nat
    decreases s.len(),
{
    if s.len() == 0 {
        0
    } else if is_ws(s[0]) {
        0
    } else {
        1 + first_ws(s.subrange(1, s.len() as int))
    }
}

/// The maximal runs of non-whitespace characters of `s`
/// (what `str::split_whitespace` yields).
pub open spec fn words(s: Seq<char>) -> Seq<Seq<char>>
    decreases s.len(),
{
    let t = trim_start(s);
    if t.len() == 0 {
        seq![]
    } else {
        let k = first_ws(t);
        proof {
            lemma_trim_start_props(s);
            lemma_first_ws_bound(t);
        }
        seq![t.subrange(0, k as int)] + words(t.subrange(k as int, t.len() as int))
    }
}

pub proof fn lemma_trim_start_props(s: Seq<char>)
    ensures
        trim_start(s).len() <= s.len(),
        trim_start(s).len() > 0 ==> !is_ws(trim_start(s)[0]),
    decreases s.len(),
{
    if s.len() > 0 && is_ws(s[0]) {
        lemma_trim_start_props(s.subrange(1, s.len() as int));
    }
}

pub proof fn lemma_first_ws_bound(s: Seq<char>)
    ensures
        first_ws(s) <= s.len(),
        s.len() > 0 && !is_ws(s[0]) ==> first_ws(s) >= 1,
    decreases s.len(),
{
    if s.len() > 0 && !is_ws(s[0]) {
        lemma_first_ws_bound(s.subrange(1, s.len() as int));
    }
}

/// Seen as a `Seq<char>`, each string of `v`.
pub open spec fn views(v: Seq<Vec<char>>) -> Seq<Seq<char>> {
    v.map_values(|x: Vec<char>| x@)
}

pub proof fn lemma_first_index_bound(s: Seq<char>, c: char)
    ensures
        first_index(s, c) <= s.len(),
        first_index(s, c) < s.len() ==> s[first_index(s, c) as int] == c,
        forall|j: int| 0 <= j < first_index(s, c) ==> s[j] != c,
    decreases s.len(),
{
    if s.len() > 0 && s[0] != c {
        let t = s.subrange(1, s.len() as int);
        lemma_first_index_bound(t, c);
        assert forall|j: int| 0 <= j < first_index(s, c) implies s[j] != c by {
            if j > 0 {
                assert(s[j] == t[j - 1]);
            }
        }
    }
}

/// The first index of `c` is the one position with a `c` and none before it.
pub proof fn lemma_first_index_at(s: Seq<char>, c: char, k: int)
    requires
        0 <= k <= s.len(),
        k < s.len() ==> s[k] == c,
        forall|j: int| 0 <= j < k ==> s[j] != c,
    ensures
        first_index(s, c) == k,
    decreases s.len(),
{
    if s.len() > 0 && s[0] != c {
        let t = s.subrange(1, s.len() as int);
        lemma_first_index_at(t, c, k - 1);
    }
}

pub proof fn lemma_first_ws_at(s: Seq<char>, k: int)
    requires
        0 <= k <= s.len(),
        k < s.len() ==> is_ws(s[k]),
        forall|j: int| 0 <= j < k ==> !is_ws(s[j]),
    ensures
        first_ws(s) == k,
    decreases s.len(),
{
    if s.len() > 0 && !is_ws(s[0]) {
        let t = s.subrange(1, s.len() as int);
        lemma_first_ws_at(t, k - 1);
    }
}

/// The characters of a string slice.
pub fn to_chars(s: &str) -> (r: Vec<char>)
    ensures
        r@ == s@,
{
    let n = s.unicode_len();
    let mut r: Vec<char> = Vec::new();
    let mut i: usize = 0;
    while i < n
        invariant
            n == s@.len(),
            i <= n,
            r@ =~= s@.subrange(0, i as int),
        decreases n - i,
    {
        let c = s.get_char(i);
        r.push(c);
        i = i + 1;
    }
    r
}

/// `String::push`: appends one character.
#[verifier::external_body]
pub(crate) fn push_char(s: &mut String, c: char)
    ensures
        final(s)@ == old(s)@.push(c),
{
    s.push(c);
}

/// The string made of the given characters.
pub fn string_of(v: &[char]) -> (r: String)
    ensures
        r@ == v@,
{
    let mut r = String::new();
    let mut i: usize = 0;
    while i < v.len()
        invariant
            i <= v.len(),
            r@ =~= v@.subrange(0, i as int),
        decreases v.len() - i,
    {
        push_char(&mut r, v[i]);
        i = i + 1;
    }
    r
}

/// The string made of the characters of `v` in positions `lo..hi`.
pub fn string_of_range(v: &[char], lo: usize, hi: usize) -> (r: String)
    requires
        lo <= hi <= v.len(),
    ensures
        r@ == v@.subrange(lo as int, hi as int),
{
    let mut r = String::new();
    let mut i: usize = lo;
    while i < hi
        invariant
            lo <= i <= hi <= v.len(),
            r@ =~= v@.subrange(lo as int, i as int),
        decreases hi - i,
    {
        push_char(&mut r, v[i]);
        i = i + 1;
    }
    r
}

/// A copy of the characters of `v` in positions `lo..hi`.
pub fn chars_range(v: &[char], lo: usize, hi: usize) -> (r: Vec<char>)
    requires
        lo <= hi <= v.len(),
    ensures
        r@ == v@.subrange(lo as int, hi as int),
{
    let mut r: Vec<char> = Vec::new();
    let mut i: usize = lo;
    while i < hi
        invariant
            lo <= i <= hi <= v.len(),
            r@ =~= v@.subrange(lo as int, i as int),
        decreases hi - i,
    {
        r.push(v[i]);
        i = i + 1;
    }
    r
}

/// Whether the characters of `v` spell `lit`.
pub fn chars_eq(v: &[char], lit: &str) -> (r: bool)
    ensures
        r == (v@ == lit@),
{
    let n = lit.unicode_len();
    if v.len() != n {
        return false;
    }
    let mut i: usize = 0;
    while i < n
        invariant
            n == lit@.len(),
            n == v@.len(),
            i <= n,
            forall|j: int| 0 <= j < i ==> v@[j] == lit@[j],
        decreases n - i,
    {
        if v[i] != lit.get_char(i) {
            return false;
        }
        i = i + 1;
    }
    assert(v@ =~= lit@);
    true
}

/// Whether two character sequences are equal.
pub fn chars_equal(a: &[char], b: &[char]) -> (r: bool)
    ensures
        r == (a@ == b@),
{
    if a.len() != b.len() {
        return false;
    }
    let mut i: usize = 0;
    while i < a.len()
        invariant
            a@.len() == b@.len(),
            i <= a.len(),
            forall|j: int| 0 <= j < i ==> a@[j] == b@[j],
        decreases a.len() - i,
    {
        if a[i] != b[i] {
            return false;
        }
        i = i + 1;
    }
    assert(a@ =~= b@);
    true
}

/// Whether two strings are equal.
pub fn str_equal(a: &str, b: &str) -> (r: bool)
    ensures
        r == (a@ == b@),
{
    let x = to_chars(a);
    let y = to_chars(b);
    chars_equal(x.as_slice(), y.as_slice())
}

/// The position of the first `c` in `v`, or the length of `v`.
pub fn find_char(v: &[char], c: char) -> (r: usize)
    ensures
        r == first_index(v@, c),
{
    let mut i: usize = 0;
    while i < v.len()
        invariant
            i <= v.len(),
            forall|j: int| 0 <= j < i ==> v@[j] != c,
        decreases v.len() - i,
    {
        if v[i] == c {
            proof {
                lemma_first_index_at(v@, c, i as int);
            }
            return i;
        }
        i = i + 1;
    }
    proof {
        lemma_first_index_at(v@, c, i as int);
    }
    i
}

/// The bounds `lo..hi` of what `str::trim` keeps of `v`.
pub fn trim_bounds(v: &[char]) -> (r: (usize, usize))
    ensures
        r.0 <= r.1 <= v.len(),
        v@.subrange(r.0 as int, r.1 as int) == trim(v@),
{
    let n = v.len();
    let mut i: usize = 0;
    assert(v@.subrange(0, n as int) =~= v@);
    while i < n && char_is_ws(v[i])
        invariant
            i <= n == v.len(),
            trim_start(v@) == trim_start(v@.subrange(i as int, n as int)),
        decreases n - i,
    {
        proof {
            let t = v@.subrange(i as int, n as int);
            assert(t.subrange(1, t.len() as int) =~= v@.subrange(i + 1, n as int));
        }
        i = i + 1;
    }
    assert(trim_start(v@) == v@.subrange(i as int, n as int));
    let mut j: usize = n;
    while j > i && char_is_ws(v[j - 1])
        invariant
            i <= j <= n == v.len(),
            trim(v@) == trim_end(v@.subrange(i as int, j as int)),
        decreases j,
    {
        proof {
            let t = v@.subrange(i as int, j as int);
            assert(t.subrange(0, t.len() - 1) =~= v@.subrange(i as int, j - 1));
        }
        j = j - 1;
    }
    (i, j)
}

/// What `str::trim` keeps of `v`.
pub fn trim_chars(v: &[char]) -> (r: Vec<char>)
    ensures
        r@ == trim(v@),
{
    let (lo, hi) = trim_bounds(v);
    chars_range(v, lo, hi)
}

/// The position where `str::trim_start_matches(c)` starts keeping `v`.
pub fn strip_leading_pos(v: &[char], c: char) -> (r: usize)
    ensures
        r <= v.len(),
        v@.subrange(r as int, v.len() as int) == strip_leading(v@, c),
{
    let n = v.len();
    let mut i: usize = 0;
    assert(v@.subrange(0, n as int) =~= v@);
    while i < n && v[i] == c
        invariant
            i <= n == v.len(),
            strip_leading(v@, c) == strip_leading(v@.subrange(i as int, n as int), c),
        decreases n - i,
    {
        proof {
            let t = v@.subrange(i as int, n as int);
            assert(t.subrange(1, t.len() as int) =~= v@.subrange(i + 1, n as int));
        }
        i = i + 1;
    }
    i
}

/// The pieces of `v` between the occurrences of `sep`.
pub fn split_chars(v: &[char], sep: char) -> (r: Vec<Vec<char>>)
    ensures
        views(r@) == split(v@, sep),
{
    let n = v.len();
    let mut pieces: Vec<Vec<char>> = Vec::new();
    let mut start: usize = 0;
    let mut i: usize = 0;
    assert(v@.subrange(0, n as int) =~= v@);
    assert(views(pieces@) =~= Seq::<Seq<char>>::empty());
    assert(Seq::<Seq<char>>::empty() + split(v@, sep) =~= split(v@, sep));
    while i < n
        invariant
            n == v.len(),
            start <= i <= n,
            forall|j: int| start <= j < i ==> v@[j] != sep,
            views(pieces@) + split(v@.subrange(start as int, n as int), sep) == split(v@, sep),
        decreases n - i,
    {
        if v[i] == sep {
            let piece = chars_range(v, start, i);
            proof {
                let t = v@.subrange(start as int, n as int);
                lemma_first_index_at(t, sep, i - start);
                assert(t.subrange(0, i - start) =~= piece@);
                assert(t.subrange(i - start + 1, t.len() as int) =~= v@.subrange(i + 1, n as int));
                assert(views(pieces@.push(piece)) =~= views(pieces@).push(piece@));
                assert(split(t, sep) == seq![piece@] + split(v@.subrange(i + 1, n as int), sep));
                assert(views(pieces@).push(piece@) + split(v@.subrange(i + 1, n as int), sep)
                    =~= views(pieces@) + (seq![piece@] + split(v@.subrange(i + 1, n as int), sep)));
            }
            pieces.push(piece);
            start = i + 1;
        }
        i = i + 1;
    }
    let last = chars_range(v, start, n);
    proof {
        let t = v@.subrange(start as int, n as int);
        lemma_first_index_at(t, sep, t.len() as int);
        assert(split(t, sep) == seq![t]);
        assert(views(pieces@.push(last)) =~= views(pieces@).push(last@));
        assert(views(pieces@).push(last@) =~= views(pieces@) + seq![t]);
    }
    pieces.push(last);
    pieces
}

/// The maximal runs of non-whitespace characters of `v`.
pub fn split_words(v: &[char]) -> (r: Vec<Vec<char>>)
    ensures
        views(r@) == words(v@),
{
    let n = v.len();
    let mut out: Vec<Vec<char>> = Vec::new();
    let mut i: usize = 0;
    assert(v@.subrange(0, n as int) =~= v@);
    assert(views(out@) =~= Seq::<Seq<char>>::empty());
    assert(Seq::<Seq<char>>::empty() + words(v@) =~= words(v@));
    while i < n
        invariant
            n == v.len(),
            i <= n,
            views(out@) + words(v@.subrange(i as int, n as int)) == words(v@),
        decreases n - i,
    {
        // skip the whitespace before the next word
        let mut a: usize = i;
        while a < n && char_is_ws(v[a])
            invariant
                i <= a <= n == v.len(),
                trim_start(v@.subrange(i as int, n as int)) == trim_start(
                    v@.subrange(a as int, n as int),
                ),
            decreases n - a,
        {
            proof {
                let t = v@.subrange(a as int, n as int);
                assert(t.subrange(1, t.len() as int) =~= v@.subrange(a + 1, n as int));
            }
            a = a + 1;
        }
        let ghost t = v@.subrange(a as int, n as int);
        assert(trim_start(v@.subrange(i as int, n as int)) == t);
        if a == n {
            assert(words(v@.subrange(i as int, n as int)) =~= Seq::<Seq<char>>::empty());
            assert(views(out@) + Seq::<Seq<char>>::empty() =~= views(out@));
            assert(v@.subrange(n as int, n as int) =~= Seq::<char>::empty());
            i = n;
        } else {
            let mut b: usize = a;
            while b < n && !char_is_ws(v[b])
                invariant
                    a <= b <= n == v.len(),
                    forall|j: int| a <= j < b ==> !is_ws(v@[j]),
                decreases n - b,
            {
                b = b + 1;
            }
            let w = chars_range(v, a, b);
            proof {
                lemma_first_ws_at(t, b - a);
                assert(t.subrange(0, b - a) =~= w@);
                assert(t.subrange(b - a, t.len() as int) =~= v@.subrange(b as int, n as int));
                assert(words(v@.subrange(i as int, n as int)) == seq![w@] + words(
                    v@.subrange(b as int, n as int),
                ));
                assert(views(out@.push(w)) =~= views(out@).push(w@));
                assert(views(out@).push(w@) + words(v@.subrange(b as int, n as int)) =~= views(
                    out@,
                ) + (seq![w@] + words(v@.subrange(b as int, n as int))));
            }
            out.push(w);
            i = b;
        }
    }
    assert(words(v@.subrange(n as int, n as int)) =~= Seq::<Seq<char>>::empty()) by {
        assert(v@.subrange(n as int, n as int) =~= Seq::<char>::empty());
    }
    assert(views(out@) + Seq::<Seq<char>>::empty() =~= views(out@));
    out
}

/// Whether `a` comes before `b` in the order `str` compares by: the first differing
/// character decides, and a proper prefix comes before the longer text.
pub open spec fn text_before(a: Seq<char>, b: Seq<char>) -> bool
    decreases a.len(),
{
    if b.len() == 0 {
        false
    } else if a.len() == 0 {
        true
    } else if a[0] != b[0] {
        a[0] < b[0]
    } else {
        text_before(a.subrange(1, a.len() as int), b.subrange(1, b.len() as int))
    }
}

/// `text_before` is a strict order: nothing comes before itself, and of two
/// different texts exactly one comes first.
pub proof fn lemma_text_before_strict(a: Seq<char>, b: Seq<char>)
    ensures
        !text_before(a, a),
        text_before(a, b) ==> !text_before(b, a),
        a != b ==> text_before(a, b) || text_before(b, a),
    decreases a.len(),
{
    if a.len() > 0 {
        let a1 = a.subrange(1, a.len() as int);
        lemma_text_before_strict(a1, a1);
    }
    if a.len() > 0 && b.len() > 0 {
        let a1 = a.subrange(1, a.len() as int);
        let b1 = b.subrange(1, b.len() as int);
        lemma_text_before_strict(a1, b1);
        if a != b && a[0] == b[0] {
            assert(a1 != b1) by {
                if a1 == b1 {
                    assert(a =~= seq![a[0]] + a1);
                    assert(b =~= seq![b[0]] + b1);
                }
            }
        }
    } else if a.len() > 0 {
        assert(a != b);
    } else if b.len() > 0 {
        assert(a != b);
    } else {
        assert(a =~= b);
    }
}

/// `text_before` is transitive.
pub proof fn lemma_text_before_trans(a: Seq<char>, b: Seq<char>, c: Seq<char>)
    requires
        text_before(a, b),
        text_before(b, c),
    ensures
        text_before(a, c),
    decreases a.len(),
{
    if a.len() > 0 && b.len() > 0 && c.len() > 0 && a[0] == b[0] && b[0] == c[0] {
        lemma_text_before_trans(
            a.subrange(1, a.len() as int),
            b.subrange(1, b.len() as int),
            c.subrange(1, c.len() as int),
        );
    }
}

/// Whether `a` comes before `b` (see `text_before`).
pub fn str_before(a: &str, b: &str) -> (r: bool)
    ensures
        r == text_before(a@, b@),
{
    let x = to_chars(a);
    let y = to_chars(b);
    let mut i: usize = 0;
    assert(a@.subrange(0, a@.len() as int) =~= a@);
    assert(b@.subrange(0, b@.len() as int) =~= b@);
    while i < x.len() && i < y.len() && x[i] == y[i]
        invariant
            i <= x@.len(),
            i <= y@.len(),
            x@ == a@,
            y@ == b@,
            text_before(a@, b@) == text_before(
                a@.subrange(i as int, a@.len() as int),
                b@.subrange(i as int, b@.len() as int),
            ),
        decreases x.len() - i,
    {
        proof {
            let s = a@.subrange(i as int, a@.len() as int);
            let t = b@.subrange(i as int, b@.len() as int);
            assert(s.subrange(1, s.len() as int) =~= a@.subrange(i + 1, a@.len() as int));
            assert(t.subrange(1, t.len() as int) =~= b@.subrange(i + 1, b@.len() as int));
        }
        i = i + 1;
    }
    if i >= y.len() {
        false
    } else if i >= x.len() {
        true
    } else {
        x[i] < y[i]
    }
}

/// The character of the decimal digit `d`.
pub fn digit_of(d: u64) -> (r: char)
    requires
        d < 10,
    ensures
        r == digit_char(d as nat),
{
    if d == 0 {
        '0'
    } else if d == 1 {
        '1'
    } else if d == 2 {
        '2'
    } else if d == 3 {
        '3'
    } else if d == 4 {
        '4'
    } else if d == 5 {
        '5'
    } else if d == 6 {
        '6'
    } else if d == 7 {
        '7'
    } else if d == 8 {
        '8'
    } else {
        '9'
    }
}

/// The decimal form of `n`.
pub fn decimal_string(n: u64) -> (r: String)
    ensures
        r@ == decimal(n as nat),
    decreases n,
{
    if n < 10 {
        let mut s = String::new();
        push_char(&mut s, digit_of(n));
        assert(s@ =~= seq![digit_char(n as nat)]);
        s
    } else {
        let mut s = decimal_string(n / 10);
        push_char(&mut s, digit_of(n % 10));
        s
    }
}

/// `n` in decimal, padded with leading zeros to at least `w` digits (as `{:0w}`).
pub open spec fn padded_decimal(n: nat, w: nat) -> Seq<char> {
    let d = decimal(n);
    if d.len() >= w {
        d
    } else {
        Seq::new((w - d.len()) as nat, |i: int| '0') + d
    }
}

/// `n` in decimal, padded with leading zeros to at least `w` digits.
pub fn padded_decimal_string(n: u64, w: usize) -> (r: String)
    ensures
        r@ == padded_decimal(n as nat, w as nat),
{
    let d = decimal_string(n);
    let dv = to_chars(d.as_str());
    if dv.len() >= w {
        return d;
    }
    let mut out = String::new();
    let mut i: usize = 0;
    let pad = w - dv.len();
    while i < pad
        invariant
            i <= pad,
            out@ == Seq::new(i as nat, |k: int| '0'),
        decreases pad - i,
    {
        push_char(&mut out, '0');
        i = i + 1;
        assert(out@ =~= Seq::new(i as nat, |k: int| '0'));
    }
    let res = crate::error::join2(out.as_str(), d.as_str());
    res
}

/// What `str::to_lowercase` returns for a string: the Unicode lowercase
/// mapping of each character, concatenated.
pub uninterp spec fn lowercase(s: Seq<char>) -> Seq<char>;

/// What `str::to_uppercase` returns for a string: the Unicode uppercase
/// mapping of each character, concatenated.
pub uninterp spec fn uppercase(s: Seq<char>) -> Seq<char>;

/// Whether a character belongs to one of the Unicode general categories
/// for numbers (what `char::is_numeric` reports).
pub uninterp spec fn numeric_char(c: char) -> bool;

/// Whether every character of the text is ASCII.
pub open spec fn all_ascii(s: Seq<char>) -> bool {
    forall|i: int| 0 <= i < s.len() ==> (#[trigger] s[i] as u32) < 128
}

/// The ASCII upper case of a character: `a`..`z` become `A`..`Z`, every other
/// character stays.
pub open spec fn ascii_upper(c: char) -> char {
    if 'a' <= c && c <= 'z' {
        ((c as u32) - 32) as char
    } else {
        c
    }
}

/// The ASCII lower case of a character: `A`..`Z` become `a`..`z`, every other
/// character stays.
pub open spec fn ascii_lower(c: char) -> char {
    if 'A' <= c && c <= 'Z' {
        ((c as u32) + 32) as char
    } else {
        c
    }
}

/// The lower case of a text as `str::to_lowercase` gives it: on ASCII text the
/// letters `A`..`Z` become `a`..`z`, other text as `lowercase` names it.
pub open spec fn lower_text(s: Seq<char>) -> Seq<char> {
    if all_ascii(s) {
        s.map_values(|c: char| ascii_lower(c))
    } else {
        lowercase(s)
    }
}

/// The upper case of a text as `str::to_uppercase` gives it: on ASCII text the
/// letters `a`..`z` become `A`..`Z`, other text as `uppercase` names it.
pub open spec fn upper_text(s: Seq<char>) -> Seq<char> {
    if all_ascii(s) {
        s.map_values(|c: char| ascii_upper(c))
    } else {
        uppercase(s)
    }
}

/// `str::to_lowercase`. Its result is named `lowercase` of the argument: the
/// Unicode case mapping is not restated here, beyond what it is on ASCII text (the
/// letters `A`..`Z` become `a`..`z`, every other ASCII character stays), so that
/// ASCII lowercase letters and digits are their own lowercase.
#[verifier::external_body]
pub(crate) fn to_lowercase(s: &str) -> (r: String)
    ensures
        r@ == lowercase(s@),
        all_ascii(s@) ==> r@ == s@.map_values(|c: char| ascii_lower(c)),
        r@ == lower_text(s@),
        (forall|i: int| 0 <= i < s@.len() ==> is_lower_or_digit(#[trigger] s@[i])) ==> r@ == s@,
{
    s.to_lowercase()
}

/// `str::to_uppercase`. Its result is named `uppercase` of the argument: the
/// Unicode case mapping is not restated here, beyond what it is on ASCII text (the
/// letters `a`..`z` become `A`..`Z`, every other ASCII character stays), so that
/// ASCII uppercase letters and digits are their own uppercase.
#[verifier::external_body]
pub(crate) fn to_uppercase(s: &str) -> (r: String)
    ensures
        r@ == uppercase(s@),
        all_ascii(s@) ==> r@ == s@.map_values(|c: char| ascii_upper(c)),
        r@ == upper_text(s@),
        (forall|i: int| 0 <= i < s@.len() ==> is_upper_or_digit(#[trigger] s@[i])) ==> r@ == s@,
{
    s.to_uppercase()
}

/// `char::is_numeric`. Its result is named `numeric_char`; the one fact
/// stated beside it is that the ASCII digits are numeric, as the
/// documentation of `char::is_numeric` shows by example.
#[verifier::external_body]
pub(crate) fn is_numeric(c: char) -> (r: bool)
    ensures
        r == numeric_char(c),
        is_ascii_digit(c) ==> r,
{
    c.is_numeric()
}

} // verus!
