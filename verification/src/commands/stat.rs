//! Pool statistics: how long paths are shown.
use crate::error::join2;
use crate::text::{string_of, string_of_range, to_chars};
use vstd::prelude::*;

verus! {

/// The number of bytes of a character in UTF-8.
pub open spec fn utf8_width(c: char) -> nat {
    if (c as u32) < 0x80 {
        1
    } else if (c as u32) < 0x800 {
        2
    } else if (c as u32) < 0x10000 {
        3
    } else {
        4
    }
}

/// The number of bytes of a text in UTF-8.
pub open spec fn utf8_len(s: Seq<char>) -> nat
    decreases s.len(),
{
    if s.len() == 0 {
        0
    } else {
        utf8_len(s.drop_last()) + utf8_width(s.last())
    }
}

/// The longest tail of `s` (whole characters) that takes at most `budget` bytes.
pub open spec fn fitting_tail(s: Seq<char>, budget: nat) -> Seq<char>
    decreases s.len(),
{
    if s.len() == 0 || utf8_width(s.last()) > budget {
        seq![]
    } else {
        fitting_tail(s.drop_last(), (budget - utf8_width(s.last())) as nat).push(s.last())
    }
}

/// A path as it is shown in at most `max_len` bytes: unchanged when it fits, else
/// `...` and the longest tail of whole characters that fits in `max_len - 3` bytes
/// (none when `max_len` is below 3).
pub open spec fn truncated_path(s: Seq<char>, max_len: nat) -> Seq<char> {
    if utf8_len(s) <= max_len {
        s
    } else {
        let keep: nat = if max_len >= 3 { (max_len - 3) as nat } else { 0 };
        "..."@ + fitting_tail(s, keep)
    }
}

/// The byte length of a text is the sum of its parts'.
proof fn lemma_utf8_len_concat(a: Seq<char>, b: Seq<char>)
    ensures
        utf8_len(a + b) == utf8_len(a) + utf8_len(b),
    decreases b.len(),
{
    if b.len() > 0 {
        assert((a + b).drop_last() =~= a + b.drop_last());
        lemma_utf8_len_concat(a, b.drop_last());
    } else {
        assert(a + b =~= a);
    }
}

/// The kept tail fits its budget and is a tail of the text.
proof fn lemma_fitting_tail(s: Seq<char>, budget: nat)
    ensures
        utf8_len(fitting_tail(s, budget)) <= budget,
        fitting_tail(s, budget).len() <= s.len(),
        fitting_tail(s, budget) =~= s.subrange(
            s.len() - fitting_tail(s, budget).len(),
            s.len() as int,
        ),
    decreases s.len(),
{
    if s.len() == 0 || utf8_width(s.last()) > budget {
    } else {
        let rest = (budget - utf8_width(s.last())) as nat;
        lemma_fitting_tail(s.drop_last(), rest);
        let t = fitting_tail(s.drop_last(), rest);
        assert(t.push(s.last()).drop_last() =~= t);
    }
}

/// A shown path never takes more than `max_len` bytes when `max_len` is at least 3,
/// and a path that fits is shown as it is.
pub proof fn law_truncated_path_fits(s: Seq<char>, max_len: nat)
    ensures
        utf8_len(s) <= max_len ==> truncated_path(s, max_len) == s,
        max_len >= 3 ==> utf8_len(truncated_path(s, max_len)) <= max_len,
{
    if utf8_len(s) > max_len && max_len >= 3 {
        let t = fitting_tail(s, (max_len - 3) as nat);
        lemma_fitting_tail(s, (max_len - 3) as nat);
        lemma_utf8_len_concat("..."@, t);
        reveal_strlit("...");
        assert(utf8_len("..."@) == 3) by {
            let d = "..."@;
            assert(d.len() == 3 && d[0] == '.' && d[1] == '.' && d[2] == '.');
            assert(d.drop_last().drop_last().drop_last() =~= Seq::<char>::empty());
            let e = d.drop_last().drop_last();
            assert(e.len() == 1 && e.last() == '.');
            assert(e.drop_last() =~= Seq::<char>::empty());
            assert(utf8_width('.') == 1);
            assert(utf8_len(e.drop_last()) == 0);
            assert(utf8_len(e) == 1);
            assert(utf8_len(d.drop_last()) == 2);
        }
    }
}

/// The number of bytes of a character in UTF-8 (see `utf8_width`).
fn char_width(c: char) -> (r: usize)
    ensures
        r == utf8_width(c),
{
    let u = c as u32;
    if u < 0x80 {
        1
    } else if u < 0x800 {
        2
    } else if u < 0x10000 {
        3
    } else {
        4
    }
}

/// The path, cut to fit `max_len` bytes (see `truncated_path`).
pub fn truncate_path(s: &str, max_len: usize) -> (r: String)
    ensures
        r@ == truncated_path(s@, max_len as nat),
{
    let v = to_chars(s);
    let mut room: usize = max_len;
    let mut i: usize = 0;
    let mut fits = true;
    while i < v.len()
        invariant
            i <= v@.len(),
            v@ == s@,
            fits ==> room == max_len - utf8_len(v@.subrange(0, i as int)),
            !fits ==> utf8_len(v@) > max_len,
        ensures
            fits ==> i == v@.len() && room == max_len - utf8_len(v@.subrange(0, i as int)),
            !fits ==> utf8_len(v@) > max_len,
        decreases v.len() - i,
    {
        assert(v@.subrange(0, i + 1).drop_last() =~= v@.subrange(0, i as int));
        let w = char_width(v[i]);
        if w > room {
            proof {
                lemma_utf8_len_concat(v@.subrange(0, i + 1), v@.subrange(i + 1, v@.len() as int));
                assert(v@.subrange(0, i + 1) + v@.subrange(i + 1, v@.len() as int) =~= v@);
            }
            fits = false;
            break;
        }
        room = room - w;
        i = i + 1;
    }
    if fits {
        assert(v@.subrange(0, i as int) =~= v@);
        return string_of(v.as_slice());
    }
    let keep = max_len.saturating_sub(3);
    let mut budget: usize = keep;
    let mut start: usize = v.len();
    assert(v@.subrange(0, start as int) =~= v@);
    assert(v@.subrange(start as int, v@.len() as int) =~= Seq::<char>::empty());
    while start > 0 && char_width(v[start - 1]) <= budget
        invariant
            start <= v@.len(),
            v@ == s@,
            fitting_tail(v@, keep as nat) == fitting_tail(v@.subrange(0, start as int), budget as nat)
                + v@.subrange(start as int, v@.len() as int),
        decreases start,
    {
        let w = char_width(v[start - 1]);
        proof {
            let pre = v@.subrange(0, start as int);
            assert(pre.drop_last() =~= v@.subrange(0, start - 1));
            assert(pre.last() == v@[start - 1]);
            let t = fitting_tail(v@.subrange(0, start - 1), (budget - w) as nat);
            assert(t.push(v@[start - 1]) + v@.subrange(start as int, v@.len() as int) =~= t
                + v@.subrange(start - 1, v@.len() as int));
        }
        budget = budget - w;
        start = start - 1;
    }
    proof {
        assert(fitting_tail(v@.subrange(0, start as int), budget as nat) =~= Seq::<char>::empty());
        assert(Seq::<char>::empty() + v@.subrange(start as int, v@.len() as int) =~= v@.subrange(
            start as int,
            v@.len() as int,
        ));
    }
    let tail = string_of_range(v.as_slice(), start, v.len());
    join2("...", tail.as_str())
}

/// How `stat` reports.
#[derive(Debug, Clone, Copy)]
pub struct StatOptions {
    /// Show sizes readably.
    pub human: bool,
    /// Report each step.
    pub verbose: bool,
    /// Report as JSON.
    pub json: bool,
}

} // verus!
