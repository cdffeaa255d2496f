//! find: which of the entries met while walking a pool path are reported.
use crate::commands::cp::{glob_match, glob_matches};
use crate::text::str_equal;
use vstd::prelude::*;

verus! {

/// One entry met while walking a pool path.
#[derive(Debug, Clone)]
pub struct FoundEntry {
    /// Its path relative to where the walk started.
    pub relative: String,
    /// Its name (the last component of its path), if it has one.
    pub name: Option<String>,
    /// Whether it is a file.
    pub is_file: bool,
    /// Whether it is a folder.
    pub is_dir: bool,
    /// Whether it is a symbolic link.
    pub is_symlink: bool,
}

/// The view of an optional text.
pub open spec fn text_opt(o: Option<&str>) -> Option<Seq<char>> {
    match o {
        Some(s) => Some(s@),
        None => None,
    }
}

/// Whether the entry is of the kind asked for: `f`/`file`, `d`/`dir` or `l`/`link`;
/// any other kind lets every entry through.
pub open spec fn kind_matches(kind: Seq<char>, e: FoundEntry) -> bool {
    if kind == "f"@ || kind == "file"@ {
        e.is_file
    } else if kind == "d"@ || kind == "dir"@ {
        e.is_dir
    } else if kind == "l"@ || kind == "link"@ {
        e.is_symlink
    } else {
        true
    }
}

/// Whether the entry is reported: its name matches the glob pattern, if one is given
/// (an entry without a name then never does), and it is of the kind asked for, if one
/// is given.
pub open spec fn entry_found(e: FoundEntry, pattern: Option<Seq<char>>, kind: Option<Seq<char>>) -> bool {
    &&& match pattern {
        Some(p) => e.name is Some && glob_matches(p, e.name.unwrap()@),
        None => true,
    }
    &&& match kind {
        Some(k) => kind_matches(k, e),
        None => true,
    }
}

/// The relative paths of the entries reported, in the order met, each once.
pub open spec fn found_paths(
    es: Seq<FoundEntry>,
    pattern: Option<Seq<char>>,
    kind: Option<Seq<char>>,
) -> Seq<Seq<char>>
    decreases es.len(),
{
    if es.len() == 0 {
        Seq::empty()
    } else {
        let rest = found_paths(es.drop_last(), pattern, kind);
        if entry_found(es.last(), pattern, kind) && !rest.contains(es.last().relative@) {
            rest.push(es.last().relative@)
        } else {
            rest
        }
    }
}

/// Whether the entry is of the kind asked for (see `kind_matches`).
fn of_kind(kind: &str, e: &FoundEntry) -> (r: bool)
    ensures
        r == kind_matches(kind@, *e),
{
    if str_equal(kind, "f") || str_equal(kind, "file") {
        e.is_file
    } else if str_equal(kind, "d") || str_equal(kind, "dir") {
        e.is_dir
    } else if str_equal(kind, "l") || str_equal(kind, "link") {
        e.is_symlink
    } else {
        true
    }
}

/// Whether the texts of `v` hold `s`.
fn holds_text(v: &Vec<String>, s: &str) -> (r: bool)
    ensures
        r == v@.map_values(|t: String| t@).contains(s@),
{
    let ghost texts = v@.map_values(|t: String| t@);
    let mut i: usize = 0;
    while i < v.len()
        invariant
            i <= v@.len(),
            texts == v@.map_values(|t: String| t@),
            forall|k: int| 0 <= k < i ==> texts[k] != s@,
        decreases v.len() - i,
    {
        if str_equal(v[i].as_str(), s) {
            assert(texts[i as int] == s@);
            return true;
        }
        i = i + 1;
    }
    false
}

/// The relative paths `find` reports among the entries met (see `found_paths`).
pub fn find_matches(entries: &[FoundEntry], pattern: Option<&str>, kind: Option<&str>) -> (r: Vec<
    String,
>)
    ensures
        r@.map_values(|t: String| t@) == found_paths(entries@, text_opt(pattern), text_opt(kind)),
{
    let mut out: Vec<String> = Vec::new();
    let mut i: usize = 0;
    while i < entries.len()
        invariant
            i <= entries@.len(),
            out@.map_values(|t: String| t@) == found_paths(
                entries@.subrange(0, i as int),
                text_opt(pattern),
                text_opt(kind),
            ),
        decreases entries.len() - i,
    {
        assert(entries@.subrange(0, i + 1).drop_last() =~= entries@.subrange(0, i as int));
        assert(entries@.subrange(0, i + 1).last() == entries@[i as int]);
        let e = &entries[i];
        let named = match pattern {
            Some(p) => match &e.name {
                Some(n) => glob_match(p, n.as_str()),
                None => false,
            },
            None => true,
        };
        let kind_ok = match kind {
            Some(k) => of_kind(k, e),
            None => true,
        };
        if named && kind_ok && !holds_text(&out, e.relative.as_str()) {
            let ghost before = out@.map_values(|t: String| t@);
            out.push(String::from_str(e.relative.as_str()));
            assert(out@.map_values(|t: String| t@) =~= before.push(e.relative@));
        }
        i = i + 1;
    }
    assert(entries@.subrange(0, i as int) =~= entries@);
    out
}

/// The reported paths are exactly the relative paths of the entries found.
proof fn lemma_found_paths(es: Seq<FoundEntry>, pattern: Option<Seq<char>>, kind: Option<Seq<char>>)
    ensures
        forall|p: Seq<char>|
            found_paths(es, pattern, kind).contains(p) <==> exists|i: int|
                0 <= i < es.len() && entry_found(#[trigger] es[i], pattern, kind) && es[i].relative@ == p,
        forall|a: int, b: int|
            0 <= a < b < found_paths(es, pattern, kind).len() ==> found_paths(es, pattern, kind)[a]
                != found_paths(es, pattern, kind)[b],
    decreases es.len(),
{
    if es.len() > 0 {
        let q = es.drop_last();
        lemma_found_paths(q, pattern, kind);
        let rest = found_paths(q, pattern, kind);
        assert forall|p: Seq<char>|
            found_paths(es, pattern, kind).contains(p) <==> exists|i: int|
                0 <= i < es.len() && entry_found(#[trigger] es[i], pattern, kind) && es[i].relative@
                    == p by {
            if found_paths(es, pattern, kind).contains(p) {
                if rest.contains(p) {
                    let i = choose|i: int|
                        0 <= i < q.len() && entry_found(#[trigger] q[i], pattern, kind) && q[i].relative@ == p;
                    assert(es[i] == q[i]);
                } else {
                    let w = choose|w: int|
                        0 <= w < found_paths(es, pattern, kind).len() && found_paths(es, pattern, kind)[w] == p;
                    assert(w == rest.len());
                    assert(es[es.len() - 1] == es.last());
                }
            }
            if exists|i: int|
                0 <= i < es.len() && entry_found(#[trigger] es[i], pattern, kind) && es[i].relative@ == p {
                let i = choose|i: int|
                    0 <= i < es.len() && entry_found(#[trigger] es[i], pattern, kind) && es[i].relative@ == p;
                if i < es.len() - 1 {
                    assert(q[i] == es[i]);
                    assert(rest.contains(p));
                    let w = choose|w: int| 0 <= w < rest.len() && rest[w] == p;
                    if entry_found(es.last(), pattern, kind) && !rest.contains(es.last().relative@) {
                        assert(found_paths(es, pattern, kind)[w] == p);
                    }
                } else {
                    assert(es[i] == es.last());
                    if !rest.contains(p) {
                        let f = found_paths(es, pattern, kind);
                        assert(f[f.len() - 1] == p);
                    } else {
                        let w = choose|w: int| 0 <= w < rest.len() && rest[w] == p;
                        assert(found_paths(es, pattern, kind)[w] == p);
                    }
                }
            }
        }
    }
}

/// What `find` reports: each entry at most once, and exactly the entries whose name
/// matches the pattern when one is given (an entry without a name never does) and
/// that are of the kind asked for when one is given: a file for `f`/`file`, a folder
/// for `d`/`dir`, a symbolic link for `l`/`link` (any other kind lets every entry
/// through).
pub proof fn law_find_reports(es: Seq<FoundEntry>, pattern: Option<Seq<char>>, kind: Option<Seq<char>>)
    ensures
        forall|a: int, b: int|
            0 <= a < b < found_paths(es, pattern, kind).len() ==> found_paths(es, pattern, kind)[a]
                != found_paths(es, pattern, kind)[b],
        forall|p: Seq<char>|
            found_paths(es, pattern, kind).contains(p) <==> exists|i: int|
                0 <= i < es.len() && (#[trigger] es[i]).relative@ == p && (match pattern {
                    Some(g) => es[i].name is Some && glob_matches(g, es[i].name.unwrap()@),
                    None => true,
                }) && (match kind {
                    Some(k) => if k == "f"@ || k == "file"@ {
                        es[i].is_file
                    } else if k == "d"@ || k == "dir"@ {
                        es[i].is_dir
                    } else if k == "l"@ || k == "link"@ {
                        es[i].is_symlink
                    } else {
                        true
                    },
                    None => true,
                }),
{
    lemma_found_paths(es, pattern, kind);
}

} // verus!
