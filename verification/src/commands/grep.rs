//! grep: which lines of a file a regular expression selects.
use crate::error::{join2, NofsError};
use vstd::prelude::*;

verus! {

/// Declares `regex::Regex`, a compiled regular expression.
#[verifier::external_type_specification]
#[verifier::external_body]
pub struct ExRegex(regex::Regex);

/// Declares `regex::Error`, why a pattern did not compile.
#[verifier::external_type_specification]
#[verifier::external_body]
pub struct ExRegexError(regex::Error);

/// Whether `regex` compiles the pattern (`Regex::new` succeeds on it).
pub uninterp spec fn pattern_compiles(pattern: Seq<char>) -> bool;

/// Whether the regex compiled from the pattern matches somewhere in the line
/// (`Regex::is_match`).
pub uninterp spec fn pattern_finds(pattern: Seq<char>, line: Seq<char>) -> bool;

/// `Regex::new`. Whether it succeeds is named `pattern_compiles`; nothing else is
/// stated of the regex it returns.
#[verifier::external_body]
fn compile_regex(pattern: &str) -> (r: Result<regex::Regex, regex::Error>)
    ensures
        r is Ok <==> pattern_compiles(pattern@),
{
    regex::Regex::new(pattern)
}

/// The text of a `regex::Error`, as its `Display` writes it; nothing is stated of it.
#[verifier::external_body]
fn regex_error_text(e: &regex::Error) -> String {
    e.to_string()
}

/// A regular expression compiled by `regex`, kept with the text it was compiled from.
/// Its fields are private and `LinePattern::new` is the only way to make one, so the
/// regex is always the one compiled from the text.
pub struct LinePattern {
    text: String,
    re: regex::Regex,
}

impl View for LinePattern {
    type V = Seq<char>;

    /// The text the regex was compiled from.
    closed spec fn view(&self) -> Seq<char> {
        self.text@
    }
}

/// `Regex::is_match` on the pattern's regex. Its answer is named `pattern_finds`, of
/// the text the regex was compiled from (the pattern's view) and the line.
#[verifier::external_body]
fn finds_in(p: &LinePattern, line: &str) -> (r: bool)
    ensures
        r == pattern_finds(p@, line@),
{
    p.re.is_match(line)
}

/// The text searched for: the pattern, behind `(?i)` when case is ignored.
pub open spec fn search_text(pattern: Seq<char>, ignore_case: bool) -> Seq<char> {
    if ignore_case {
        "(?i)"@ + pattern
    } else {
        pattern
    }
}

impl LinePattern {
    /// Compiles the pattern (see `search_text`); a pattern `regex` refuses is a
    /// command error.
    pub fn new(pattern: &str, ignore_case: bool) -> (r: Result<LinePattern, NofsError>)
        ensures
            r is Ok <==> pattern_compiles(search_text(pattern@, ignore_case)),
            r matches Ok(p) ==> p@ == search_text(pattern@, ignore_case),
            r matches Err(e) ==> e is Command,
    {
        let text = if ignore_case {
            join2("(?i)", pattern)
        } else {
            String::from_str(pattern)
        };
        match compile_regex(text.as_str()) {
            Ok(re) => Ok(LinePattern { text, re }),
            Err(e) => {
                let why = regex_error_text(&e);
                Err(NofsError::Command(join2("Invalid regex pattern: ", why.as_str())))
            },
        }
    }

    /// Whether the line is selected: it holds a match, or, when inverted, it holds none.
    pub fn selects(&self, line: &str, invert: bool) -> (r: bool)
        ensures
            r == (pattern_finds(self@, line@) != invert),
    {
        finds_in(self, line) != invert
    }
}

/// The positions of the selected lines, in order.
pub open spec fn selected_positions(pattern: Seq<char>, lines: Seq<Seq<char>>, invert: bool) -> Seq<
    usize,
>
    decreases lines.len(),
{
    if lines.len() == 0 {
        Seq::empty()
    } else {
        let rest = selected_positions(pattern, lines.drop_last(), invert);
        if pattern_finds(pattern, lines.last()) != invert {
            rest.push((lines.len() - 1) as usize)
        } else {
            rest
        }
    }
}

/// The positions of the lines the pattern selects (see `LinePattern::selects`).
pub fn selected_lines(p: &LinePattern, lines: &[String], invert: bool) -> (r: Vec<usize>)
    ensures
        r@ == selected_positions(p@, lines@.map_values(|l: String| l@), invert),
{
    let ghost texts = lines@.map_values(|l: String| l@);
    let mut out: Vec<usize> = Vec::new();
    let mut i: usize = 0;
    while i < lines.len()
        invariant
            i <= lines@.len(),
            texts == lines@.map_values(|l: String| l@),
            out@ == selected_positions(p@, texts.subrange(0, i as int), invert),
        decreases lines.len() - i,
    {
        proof {
            assert(texts.subrange(0, i + 1).drop_last() =~= texts.subrange(0, i as int));
            assert(texts.subrange(0, i + 1).last() == lines@[i as int]@);
        }
        if p.selects(lines[i].as_str(), invert) {
            out.push(i);
        }
        i = i + 1;
    }
    assert(texts.subrange(0, i as int) =~= texts);
    out
}

/// All positions selected are positions of lines.
proof fn lemma_selected_below(pattern: Seq<char>, lines: Seq<Seq<char>>, invert: bool)
    requires
        lines.len() <= usize::MAX,
    ensures
        forall|k: int|
            0 <= k < selected_positions(pattern, lines, invert).len() ==> (#[trigger] selected_positions(
                pattern,
                lines,
                invert,
            )[k]) < lines.len(),
    decreases lines.len(),
{
    if lines.len() > 0 {
        let rest_lines = lines.drop_last();
        lemma_selected_below(pattern, rest_lines, invert);
        let s = selected_positions(pattern, lines, invert);
        let rest = selected_positions(pattern, rest_lines, invert);
        assert forall|k: int| 0 <= k < s.len() implies #[trigger] s[k] < lines.len() by {
            if k < rest.len() {
                assert(s[k] == rest[k]);
            }
        }
    }
}

/// Whether position `i` is among the selected ones.
pub open spec fn is_selected(pattern: Seq<char>, lines: Seq<Seq<char>>, invert: bool, i: int) -> bool {
    selected_positions(pattern, lines, invert).contains(i as usize)
}

/// Inverting the search selects exactly the lines it left out.
pub proof fn lemma_invert_complements(pattern: Seq<char>, lines: Seq<Seq<char>>, i: int)
    requires
        lines.len() <= usize::MAX,
        0 <= i < lines.len(),
    ensures
        is_selected(pattern, lines, true, i) <==> !is_selected(pattern, lines, false, i),
    decreases lines.len(),
{
    let n = lines.len() - 1;
    let init = lines.drop_last();
    lemma_selected_below(pattern, init, true);
    lemma_selected_below(pattern, init, false);
    let yes = selected_positions(pattern, init, false);
    let no = selected_positions(pattern, init, true);
    if i < n {
        lemma_invert_complements(pattern, init, i);
        if pattern_finds(pattern, lines.last()) {
            let yp = yes.push(n as usize);
            assert(yp.contains(i as usize) <==> yes.contains(i as usize)) by {
                if yp.contains(i as usize) {
                    let k = choose|k: int| 0 <= k < yp.len() && yp[k] == i as usize;
                    if k == yes.len() {
                        assert((n as usize) as int == n);
                    } else {
                        assert(yes[k] == i as usize);
                    }
                }
                if yes.contains(i as usize) {
                    let k = choose|k: int| 0 <= k < yes.len() && yes[k] == i as usize;
                    assert(yp[k] == i as usize);
                }
            }
        } else {
            let np = no.push(n as usize);
            assert(np.contains(i as usize) <==> no.contains(i as usize)) by {
                if np.contains(i as usize) {
                    let k = choose|k: int| 0 <= k < np.len() && np[k] == i as usize;
                    if k == no.len() {
                        assert((n as usize) as int == n);
                    } else {
                        assert(no[k] == i as usize);
                    }
                }
                if no.contains(i as usize) {
                    let k = choose|k: int| 0 <= k < no.len() && no[k] == i as usize;
                    assert(np[k] == i as usize);
                }
            }
        }
    } else {
        assert(lines.last() == lines[n]);
        if pattern_finds(pattern, lines.last()) {
            assert(yes.push(n as usize)[yes.len() as int] == n as usize);
            assert(!no.contains(n as usize)) by {
                if no.contains(n as usize) {
                    let k = choose|k: int| 0 <= k < no.len() && no[k] == n as usize;
                    assert(no[k] < init.len());
                }
            }
        } else {
            assert(no.push(n as usize)[no.len() as int] == n as usize);
            assert(!yes.contains(n as usize)) by {
                if yes.contains(n as usize) {
                    let k = choose|k: int| 0 <= k < yes.len() && yes[k] == n as usize;
                    assert(yes[k] < init.len());
                }
            }
        }
    }
}

/// One line a search selected.
#[derive(Debug, Clone)]
pub struct GrepMatch {
    /// Name of the file.
    pub file: String,
    /// Path of the branch holding it.
    pub branch: String,
    /// The line's number, counting from 1.
    pub line_number: usize,
    /// The line.
    pub line: String,
}

/// What `grep` reports.
#[derive(Debug, Clone)]
pub struct GrepOutput {
    /// The pattern searched for.
    pub pattern: String,
    /// The pool path searched.
    pub path: String,
    /// The lines selected, in order.
    pub matches: Vec<GrepMatch>,
}

/// The lines of a file that the pattern selects (see `selected_lines`), each with the
/// file's name, its branch and its number counting from 1.
pub fn line_matches(p: &LinePattern, file: &str, branch: &str, lines: &[String], invert: bool) -> (r:
    Vec<GrepMatch>)
    ensures
        r@.len() == selected_positions(p@, lines@.map_values(|l: String| l@), invert).len(),
        forall|k: int|
            0 <= k < r@.len() ==> {
                let i = selected_positions(p@, lines@.map_values(|l: String| l@), invert)[k];
                &&& (#[trigger] r@[k]).file@ == file@
                &&& r@[k].branch@ == branch@
                &&& r@[k].line_number == i + 1
                &&& r@[k].line@ == lines@[i as int]@
            },
{
    let positions = selected_lines(p, lines, invert);
    let n = lines.len();
    proof {
        lemma_selected_below(p@, lines@.map_values(|l: String| l@), invert);
    }
    let mut out: Vec<GrepMatch> = Vec::new();
    let mut k: usize = 0;
    while k < positions.len()
        invariant
            k <= positions@.len(),
            n == lines@.len(),
            positions@ == selected_positions(p@, lines@.map_values(|l: String| l@), invert),
            forall|j: int| 0 <= j < positions@.len() ==> #[trigger] positions@[j] < lines@.len(),
            out@.len() == k,
            forall|j: int|
                0 <= j < k ==> {
                    let i = positions@[j];
                    &&& (#[trigger] out@[j]).file@ == file@
                    &&& out@[j].branch@ == branch@
                    &&& out@[j].line_number == i + 1
                    &&& out@[j].line@ == lines@[i as int]@
                },
        decreases positions.len() - k,
    {
        let i = positions[k];
        assert(positions@[k as int] < lines@.len());
        out.push(
            GrepMatch {
                file: String::from_str(file),
                branch: String::from_str(branch),
                line_number: i + 1,
                line: String::from_str(lines[i].as_str()),
            },
        );
        k = k + 1;
    }
    out
}

} // verus!
