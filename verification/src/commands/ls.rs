//! Listing a directory of a pool: how entries from several branches are merged and
//! how their details are shown.
use crate::text::{lemma_text_before_strict, lemma_text_before_trans, push_char, str_before, str_equal, text_before, decimal, decimal_string};
use crate::utils::{one_decimal, scaled_size};
use crate::error::join2;
use vstd::prelude::*;

verus! {

/// The permission character for one bit of a mode.
pub open spec fn perm_char(mode: u32, bit: u32, c: char) -> char {
    if mode & bit != 0 {
        c
    } else {
        '-'
    }
}

/// The `rwxrwxrwx` form of the permission bits of a mode.
pub open spec fn permissions_text(mode: u32) -> Seq<char> {
    seq![
        perm_char(mode, 0o400, 'r'),
        perm_char(mode, 0o200, 'w'),
        perm_char(mode, 0o100, 'x'),
        perm_char(mode, 0o040, 'r'),
        perm_char(mode, 0o020, 'w'),
        perm_char(mode, 0o010, 'x'),
        perm_char(mode, 0o004, 'r'),
        perm_char(mode, 0o002, 'w'),
        perm_char(mode, 0o001, 'x'),
    ]
}

/// One permission character (see `perm_char`).
fn perm_of(mode: u32, bit: u32, c: char) -> (r: char)
    ensures
        r == perm_char(mode, bit, c),
{
    if mode & bit != 0 {
        c
    } else {
        '-'
    }
}

/// The permission bits of a mode as `rwxrwxrwx` (see `permissions_text`).
pub fn format_permissions(mode: u32) -> (r: String)
    ensures
        r@ == permissions_text(mode),
{
    let mut out = String::new();
    push_char(&mut out, perm_of(mode, 0o400, 'r'));
    push_char(&mut out, perm_of(mode, 0o200, 'w'));
    push_char(&mut out, perm_of(mode, 0o100, 'x'));
    push_char(&mut out, perm_of(mode, 0o040, 'r'));
    push_char(&mut out, perm_of(mode, 0o020, 'w'));
    push_char(&mut out, perm_of(mode, 0o010, 'x'));
    push_char(&mut out, perm_of(mode, 0o004, 'r'));
    push_char(&mut out, perm_of(mode, 0o002, 'w'));
    push_char(&mut out, perm_of(mode, 0o001, 'x'));
    assert(out@ =~= permissions_text(mode));
    out
}

/// How a long listing shows a size: in the largest binary unit (`K` = 1024 bytes up
/// to `T`) it reaches, with one decimal; in bytes, followed by `B`, below 1 K.
pub open spec fn binary_size_text(size: u64) -> Seq<char> {
    if size >= 0x100_0000_0000 {
        one_decimal(size as nat, 0x100_0000_0000) + "T"@
    } else if size >= 0x4000_0000 {
        one_decimal(size as nat, 0x4000_0000) + "G"@
    } else if size >= 0x10_0000 {
        one_decimal(size as nat, 0x10_0000) + "M"@
    } else if size >= 0x400 {
        one_decimal(size as nat, 0x400) + "K"@
    } else {
        decimal(size as nat) + "B"@
    }
}

/// A size in binary units (see `binary_size_text`): `1536` is `1.5K`.
pub fn human_size(size: u64) -> (r: String)
    ensures
        r@ == binary_size_text(size),
{
    if size >= 0x100_0000_0000 {
        scaled_size(size, 0x100_0000_0000, "T")
    } else if size >= 0x4000_0000 {
        scaled_size(size, 0x4000_0000, "G")
    } else if size >= 0x10_0000 {
        scaled_size(size, 0x10_0000, "M")
    } else if size >= 0x400 {
        scaled_size(size, 0x400, "K")
    } else {
        let d = decimal_string(size);
        join2(d.as_str(), "B")
    }
}

/// The entries whose name no earlier entry has, in order: of several entries of the
/// same name (the same file in several branches), the first.
pub open spec fn first_of_each_name(es: Seq<(String, String)>) -> Seq<(String, String)>
    decreases es.len(),
{
    if es.len() == 0 {
        es
    } else {
        let rest = first_of_each_name(es.drop_last());
        if exists|j: int| 0 <= j < es.len() - 1 && (#[trigger] es[j]).1@ == es.last().1@ {
            rest
        } else {
            rest.push(es.last())
        }
    }
}

/// Each entry's name comes before the next one's.
pub open spec fn names_increasing(es: Seq<(String, String)>) -> bool {
    forall|a: int, b: int| 0 <= a < b < es.len() ==> text_before(es[a].1@, es[b].1@)
}

/// Whether some entry has the given name.
pub open spec fn has_name(es: Seq<(String, String)>, name: Seq<char>) -> bool {
    exists|j: int| 0 <= j < es.len() && (#[trigger] es[j]).1@ == name
}

/// The names kept are the names met.
proof fn lemma_first_names(es: Seq<(String, String)>, name: Seq<char>)
    ensures
        has_name(first_of_each_name(es), name) <==> has_name(es, name),
    decreases es.len(),
{
    if es.len() > 0 {
        let init = es.drop_last();
        lemma_first_names(init, name);
        let rest = first_of_each_name(init);
        if has_name(init, name) {
            let j = choose|j: int| 0 <= j < init.len() && (#[trigger] init[j]).1@ == name;
            assert(es[j] == init[j]);
        }
        if has_name(es, name) && !has_name(init, name) {
            let j = choose|j: int| 0 <= j < es.len() && (#[trigger] es[j]).1@ == name;
            if j < es.len() - 1 {
                assert(init[j] == es[j]);
            }
            assert(es.last().1@ == name);
            if exists|k: int| 0 <= k < es.len() - 1 && (#[trigger] es[k]).1@ == es.last().1@ {
                let k = choose|k: int| 0 <= k < es.len() - 1 && (#[trigger] es[k]).1@ == es.last().1@;
                assert(init[k] == es[k]);
            } else {
                assert(rest.push(es.last())[rest.len() as int] == es.last());
            }
        }
        if has_name(first_of_each_name(es), name) && !has_name(rest, name) {
            if !(exists|k: int| 0 <= k < es.len() - 1 && (#[trigger] es[k]).1@ == es.last().1@) {
                let r2 = rest.push(es.last());
                let j = choose|j: int| 0 <= j < r2.len() && (#[trigger] r2[j]).1@ == name;
                if j < rest.len() {
                    assert(r2[j] == rest[j]);
                }
            }
        }
        if has_name(rest, name) {
            let j = choose|j: int| 0 <= j < rest.len() && (#[trigger] rest[j]).1@ == name;
            if !(exists|k: int| 0 <= k < es.len() - 1 && (#[trigger] es[k]).1@ == es.last().1@) {
                assert(rest.push(es.last())[j] == rest[j]);
            }
        }
    }
}

/// The entries (each a path and a name) gathered from several branches, as a listing
/// shows them: ordered by name, one entry per name, the first met of each name.
pub fn merge_entries(entries: Vec<(String, String)>) -> (r: Vec<(String, String)>)
    ensures
        names_increasing(r@),
        r@.to_multiset() == first_of_each_name(entries@).to_multiset(),
{
    let ghost all = entries@;
    let mut rest = entries;
    let mut out: Vec<(String, String)> = Vec::new();
    proof {
        assert(all.subrange(0, 0) =~= Seq::<(String, String)>::empty());
        assert(all.subrange(0, all.len() as int) =~= all);
    }
    while rest.len() > 0
        invariant
            rest@.len() <= all.len(),
            rest@ == all.subrange(all.len() - rest@.len(), all.len() as int),
            names_increasing(out@),
            out@.to_multiset() == first_of_each_name(all.subrange(0, all.len() - rest@.len())).to_multiset(),
            forall|name: Seq<char>|
                has_name(out@, name) == has_name(all.subrange(0, all.len() - rest@.len()), name),
        decreases rest.len(),
    {
        let ghost done = all.len() - rest@.len();
        let ghost before = all.subrange(0, done);
        let x = rest.remove(0);
        proof {
            assert(x == all[done]);
            assert(rest@ =~= all.subrange(all.len() - rest@.len(), all.len() as int));
            assert(all.subrange(0, done + 1).drop_last() =~= before);
            assert(all.subrange(0, done + 1).last() == x);
        }
        let ghost old_out = out@;
        let mut k: usize = 0;
        let mut seen = false;
        while k < out.len() && !seen && !str_before(x.1.as_str(), out[k].1.as_str())
            invariant
                k <= out@.len(),
                out@ == old_out,
                names_increasing(old_out),
                forall|m: int|
                    0 <= m < k && !(seen && m == k - 1) ==> text_before(old_out[m].1@, x.1@),
                seen ==> k > 0 && old_out[k - 1].1@ == x.1@,
            decreases out.len() - k,
        {
            if str_equal(out[k].1.as_str(), x.1.as_str()) {
                seen = true;
            } else {
                proof {
                    lemma_text_before_strict(x.1@, old_out[k as int].1@);
                }
            }
            k = k + 1;
        }
        if seen {
            proof {
                assert(has_name(old_out, x.1@));
                assert(has_name(before, x.1@));
                let j = choose|j: int| 0 <= j < before.len() && (#[trigger] before[j]).1@ == x.1@;
                let es = all.subrange(0, done + 1);
                assert(es[j] == before[j]);
                assert(first_of_each_name(es) == first_of_each_name(before));
                assert forall|name: Seq<char>| has_name(out@, name) == has_name(es, name) by {
                    if has_name(before, name) {
                        let i = choose|i: int| 0 <= i < before.len() && (#[trigger] before[i]).1@ == name;
                        assert(es[i] == before[i]);
                    }
                    if has_name(es, name) && name != x.1@ {
                        let i = choose|i: int| 0 <= i < es.len() && (#[trigger] es[i]).1@ == name;
                        assert(before[i] == es[i]);
                    }
                }
            }
        } else {
            proof {
                assert forall|m: int| 0 <= m < old_out.len() implies old_out[m].1@ != x.1@ by {
                    if m < k {
                        lemma_text_before_strict(old_out[m].1@, x.1@);
                    } else {
                        assert(k < old_out.len());
                        assert(text_before(x.1@, old_out[k as int].1@));
                        lemma_text_before_strict(x.1@, old_out[k as int].1@);
                        if m > k {
                            lemma_text_before_trans(x.1@, old_out[k as int].1@, old_out[m].1@);
                            lemma_text_before_strict(x.1@, old_out[m].1@);
                        }
                    }
                }
                assert(!has_name(old_out, x.1@));
                assert(has_name(old_out, x.1@) == has_name(before, x.1@));
                assert(!has_name(before, x.1@));
                assert forall|m: int| k <= m < old_out.len() implies text_before(x.1@, old_out[m].1@) by {
                    if m > k {
                        lemma_text_before_trans(x.1@, old_out[k as int].1@, old_out[m].1@);
                    }
                }
            }
            out.insert(k, x);
            proof {
                let ws = out@;
                let es = all.subrange(0, done + 1);
                assert forall|a: int, b: int| 0 <= a < b < ws.len() implies text_before(
                    ws[a].1@,
                    ws[b].1@,
                ) by {
                    if b < k {
                    } else if a < k && b == k {
                    } else if a < k {
                        assert(ws[b] == old_out[b - 1]);
                        lemma_text_before_trans(old_out[a].1@, x.1@, old_out[b - 1].1@);
                    } else if a == k {
                        assert(ws[b] == old_out[b - 1]);
                    } else {
                        assert(ws[b] == old_out[b - 1]);
                        assert(ws[a] == old_out[a - 1]);
                    }
                }
                assert(!(exists|j: int| 0 <= j < es.len() - 1 && (#[trigger] es[j]).1@ == es.last().1@)) by {
                    if exists|j: int| 0 <= j < es.len() - 1 && (#[trigger] es[j]).1@ == es.last().1@ {
                        let j = choose|j: int| 0 <= j < es.len() - 1 && (#[trigger] es[j]).1@ == es.last().1@;
                        assert(before[j] == es[j]);
                    }
                }
                assert(first_of_each_name(es) == first_of_each_name(before).push(x));
                vstd::seq_lib::to_multiset_insert(old_out, k as int, x);
                vstd::seq_lib::to_multiset_build(first_of_each_name(before), x);
                assert forall|name: Seq<char>| has_name(out@, name) == has_name(es, name) by {
                    if has_name(old_out, name) {
                        let i = choose|i: int| 0 <= i < old_out.len() && (#[trigger] old_out[i]).1@ == name;
                        if i < k {
                            assert(ws[i] == old_out[i]);
                        } else {
                            assert(ws[i + 1] == old_out[i]);
                        }
                    }
                    if has_name(ws, name) && name != x.1@ {
                        let i = choose|i: int| 0 <= i < ws.len() && (#[trigger] ws[i]).1@ == name;
                        if i < k {
                            assert(ws[i] == old_out[i]);
                        } else {
                            assert(ws[i] == old_out[i - 1]);
                        }
                    }
                    if has_name(before, name) {
                        let i = choose|i: int| 0 <= i < before.len() && (#[trigger] before[i]).1@ == name;
                        assert(es[i] == before[i]);
                    }
                    if has_name(es, name) && name != x.1@ {
                        let i = choose|i: int| 0 <= i < es.len() && (#[trigger] es[i]).1@ == name;
                        assert(before[i] == es[i]);
                    }
                    if name == x.1@ {
                        assert(ws[k as int] == x);
                        assert(es[done] == x);
                    }
                }
            }
        }
    }
    proof {
        assert(all.subrange(0, all.len() as int) =~= all);
    }
    out
}

} // verus!
