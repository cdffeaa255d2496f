//! Free space per branch: how sizes and long paths are shown.
use crate::commands::ls::binary_size_text;
use crate::error::join2;
use crate::text::{decimal, decimal_string, string_of, string_of_range, to_chars};
use crate::utils::{one_decimal, scaled_size};
use vstd::prelude::*;

verus! {

/// How the free-space table shows a size: as a long listing does (see
/// `binary_size_text`), but plain bytes carry no unit.
pub open spec fn table_size_text(size: u64) -> Seq<char> {
    if size >= 0x400 {
        binary_size_text(size)
    } else {
        decimal(size as nat)
    }
}

/// A size as the free-space table shows it (see `table_size_text`).
pub fn format_size(size: u64) -> (r: String)
    ensures
        r@ == table_size_text(size),
{
    if size >= 0x100_0000_0000 {
        scaled_size(size, 0x100_0000_0000, "T")
    } else if size >= 0x4000_0000 {
        scaled_size(size, 0x4000_0000, "G")
    } else if size >= 0x10_0000 {
        scaled_size(size, 0x10_0000, "M")
    } else if size >= 0x400 {
        scaled_size(size, 0x400, "K")
    } else {
        decimal_string(size)
    }
}

/// A text cut to its last `max_len - 3` characters after `...` when it is longer
/// than `max_len`.
pub open spec fn truncated_text(s: Seq<char>, max_len: nat) -> Seq<char> {
    if s.len() <= max_len {
        s
    } else {
        "..."@ + s.subrange(s.len() - (max_len - 3), s.len() as int)
    }
}

/// The text, cut to fit `max_len` characters (see `truncated_text`).
pub fn truncate_str(s: &str, max_len: usize) -> (r: String)
    requires
        max_len >= 3,
    ensures
        r@ == truncated_text(s@, max_len as nat),
{
    let v = to_chars(s);
    if v.len() <= max_len {
        return string_of(v.as_slice());
    }
    let tail = string_of_range(v.as_slice(), v.len() - (max_len - 3), v.len());
    join2("...", tail.as_str())
}

} // verus!
