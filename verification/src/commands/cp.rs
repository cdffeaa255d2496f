//! Copy and move: how conflicts between a source and an existing destination are
//! resolved, and which files a copy takes.
use crate::error::{join2, NofsError};
use crate::size::{parse_size, parse_size_spec};
use crate::text::{
    decimal, digit_of, first_index, find_char, find_last_char, is_ascii_digit, last_index,
    lemma_first_index_bound, lemma_last_index, lower_text, push_char, split_words,
    str_equal, string_of, string_of_range, strip_leading, strip_leading_pos, to_chars,
    to_lowercase, trim, trim_chars, views, words,
};
use crate::utils::{path_file_name, reported_name, file_name_part};
use crate::branch::opt_view;
use vstd::prelude::*;

verus! {

/// What to do when a file is copied onto an existing file, once no rule applied.
#[derive(Debug, Clone, Copy, PartialEq, Eq, Structural)]
pub enum FileOverFileMode {
    /// Leave the destination, do not copy.
    Skip,
    /// Copy the source under a new `_N` name.
    RenameSrc,
    /// Move the destination to a new `_N` name, then copy.
    RenameDest,
    /// Delete the source, do not copy.
    DeleteSrc,
    /// Delete the destination, then copy.
    DeleteDest,
}

/// What to do when a file meets a folder, or a folder a file.
#[derive(Debug, Clone, Copy, PartialEq, Eq, Structural)]
pub enum FolderConflictMode {
    /// Skip the source item.
    Skip,
    /// Rename the source item with a `_N` suffix.
    RenameSrc,
    /// Rename the destination item with a `_N` suffix.
    RenameDest,
    /// Delete the source item.
    DeleteSrc,
    /// Delete the destination item.
    DeleteDest,
    /// Folder over file: rename the file and create the folder; file over folder: place
    /// the file inside the folder.
    Merge,
}

/// The attribute a conflict rule compares.
#[derive(Debug, Clone, Copy, PartialEq, Eq, Structural)]
pub enum Attribute {
    /// Content hashes.
    Hash,
    /// Sizes in bytes.
    Size,
    /// Modification times.
    Modified,
    /// Creation times.
    Created,
}

/// How a conflict rule compares the source's attribute with the destination's.
#[derive(Debug, Clone, Copy, PartialEq, Eq, Structural)]
pub enum Comparison {
    /// They are equal.
    Equal,
    /// The source's is greater.
    Greater,
    /// The source's is less.
    Less,
}

/// Which file's attribute a rule names as its subject.
#[derive(Debug, Clone, Copy, PartialEq, Eq, Structural)]
pub enum Target {
    /// The source file.
    Src,
    /// The destination file.
    Dest,
}

/// What a matching rule does.
#[derive(Debug, Clone, Copy, PartialEq, Eq, Structural)]
pub enum RuleAction {
    /// Do not copy.
    Skip,
    /// Delete the source, do not copy.
    DeleteSrc,
    /// Delete the destination, then copy.
    DeleteDest,
}

/// One rule for file-over-file conflicts: when its comparison holds, its action is
/// taken and no later rule is looked at.
#[derive(Debug, Clone, Copy)]
pub struct Rule {
    /// What to do when the rule matches.
    pub action: RuleAction,
    /// The attribute compared.
    pub attribute: Attribute,
    /// The comparison.
    pub comparison: Comparison,
    /// Whose attribute the rule is about.
    pub target: Target,
}

/// The reason a matching rule gives.
pub open spec fn rule_reason(r: Rule) -> Seq<char> {
    match r.attribute {
        Attribute::Hash => "hashes match"@,
        Attribute::Size => match r.comparison {
            Comparison::Equal => "sizes match"@,
            Comparison::Greater => "source is larger than destination"@,
            Comparison::Less => "source is smaller than destination"@,
        },
        Attribute::Modified => match r.comparison {
            Comparison::Equal => "modification times match"@,
            Comparison::Greater => "source is newer than destination"@,
            Comparison::Less => "source is older than destination"@,
        },
        Attribute::Created => match r.comparison {
            Comparison::Equal => "creation times match"@,
            Comparison::Greater => "source was created more recently than destination"@,
            Comparison::Less => "source was created earlier than destination"@,
        },
    }
}

impl Rule {
    /// The reason the rule gives when it matches (see `rule_reason`).
    pub fn display(&self) -> (r: String)
        ensures
            r@ == rule_reason(*self),
    {
        match self.attribute {
            Attribute::Hash => String::from_str("hashes match"),
            Attribute::Size => match self.comparison {
                Comparison::Equal => String::from_str("sizes match"),
                Comparison::Greater => String::from_str("source is larger than destination"),
                Comparison::Less => String::from_str("source is smaller than destination"),
            },
            Attribute::Modified => match self.comparison {
                Comparison::Equal => String::from_str("modification times match"),
                Comparison::Greater => String::from_str("source is newer than destination"),
                Comparison::Less => String::from_str("source is older than destination"),
            },
            Attribute::Created => match self.comparison {
                Comparison::Equal => String::from_str("creation times match"),
                Comparison::Greater => String::from_str(
                    "source was created more recently than destination",
                ),
                Comparison::Less => String::from_str("source was created earlier than destination"),
            },
        }
    }
}

/// The rules of a file-over-file strategy, and the mode used when none matches.
#[derive(Debug, Clone)]
pub struct FileOverFileStrategy {
    /// The rules, in the order they are tried.
    pub rules: Vec<Rule>,
    /// The mode used when no rule matches.
    pub required: FileOverFileMode,
}

impl Default for FileOverFileStrategy {
    /// No rules; delete the destination, then copy.
    fn default() -> (r: Self)
        ensures
            r.rules@.len() == 0,
            r.required == FileOverFileMode::DeleteDest,
    {
        FileOverFileStrategy { rules: Vec::new(), required: FileOverFileMode::DeleteDest }
    }
}

/// The file-over-file mode with the given name.
pub open spec fn file_mode_named(w: Seq<char>) -> Option<FileOverFileMode> {
    if w == "skip"@ {
        Some(FileOverFileMode::Skip)
    } else if w == "rename-src"@ {
        Some(FileOverFileMode::RenameSrc)
    } else if w == "rename-dest"@ {
        Some(FileOverFileMode::RenameDest)
    } else if w == "delete-src"@ {
        Some(FileOverFileMode::DeleteSrc)
    } else if w == "delete-dest"@ {
        Some(FileOverFileMode::DeleteDest)
    } else {
        None
    }
}

/// The folder conflict mode with the given (lower_text) name.
pub open spec fn folder_mode_named(w: Seq<char>) -> Option<FolderConflictMode> {
    if w == "skip"@ {
        Some(FolderConflictMode::Skip)
    } else if w == "rename-src"@ {
        Some(FolderConflictMode::RenameSrc)
    } else if w == "rename-dest"@ {
        Some(FolderConflictMode::RenameDest)
    } else if w == "delete-src"@ {
        Some(FolderConflictMode::DeleteSrc)
    } else if w == "delete-dest"@ {
        Some(FolderConflictMode::DeleteDest)
    } else if w == "merge"@ {
        Some(FolderConflictMode::Merge)
    } else {
        None
    }
}

/// A rule on the hashes: they match.
pub open spec fn hash_rule(action: RuleAction) -> Rule {
    Rule { action, attribute: Attribute::Hash, comparison: Comparison::Equal, target: Target::Dest }
}

/// A rule on another attribute.
pub open spec fn attr_rule(
    action: RuleAction,
    attribute: Attribute,
    comparison: Comparison,
    target: Target,
) -> Rule {
    Rule { action, attribute, comparison, target }
}

/// The rule a rule token names: an action (`skip`, `delete-dest`, `delete-src`)
/// followed by `-hash`, `-size` (equal sizes), `-larger`, `-smaller`,
/// `-modified-newer`, `-modified-older`, `-created-newer` or `-created-older`.
pub open spec fn rule_named(w: Seq<char>) -> Option<Rule> {
    if w == "skip-hash"@ {
        Some(hash_rule(RuleAction::Skip))
    } else if w == "skip-size"@ {
        Some(attr_rule(RuleAction::Skip, Attribute::Size, Comparison::Equal, Target::Dest))
    } else if w == "skip-larger"@ {
        Some(attr_rule(RuleAction::Skip, Attribute::Size, Comparison::Greater, Target::Src))
    } else if w == "skip-smaller"@ {
        Some(attr_rule(RuleAction::Skip, Attribute::Size, Comparison::Less, Target::Src))
    } else if w == "skip-modified-newer"@ {
        Some(attr_rule(RuleAction::Skip, Attribute::Modified, Comparison::Greater, Target::Src))
    } else if w == "skip-modified-older"@ {
        Some(attr_rule(RuleAction::Skip, Attribute::Modified, Comparison::Less, Target::Src))
    } else if w == "skip-created-newer"@ {
        Some(attr_rule(RuleAction::Skip, Attribute::Created, Comparison::Greater, Target::Src))
    } else if w == "skip-created-older"@ {
        Some(attr_rule(RuleAction::Skip, Attribute::Created, Comparison::Less, Target::Src))
    } else if w == "delete-dest-hash"@ {
        Some(hash_rule(RuleAction::DeleteDest))
    } else if w == "delete-dest-size"@ {
        Some(attr_rule(RuleAction::DeleteDest, Attribute::Size, Comparison::Equal, Target::Dest))
    } else if w == "delete-dest-larger"@ {
        Some(attr_rule(RuleAction::DeleteDest, Attribute::Size, Comparison::Greater, Target::Src))
    } else if w == "delete-dest-smaller"@ {
        Some(attr_rule(RuleAction::DeleteDest, Attribute::Size, Comparison::Less, Target::Src))
    } else if w == "delete-dest-modified-newer"@ {
        Some(
            attr_rule(RuleAction::DeleteDest, Attribute::Modified, Comparison::Greater, Target::Src),
        )
    } else if w == "delete-dest-modified-older"@ {
        Some(attr_rule(RuleAction::DeleteDest, Attribute::Modified, Comparison::Less, Target::Src))
    } else if w == "delete-dest-created-newer"@ {
        Some(
            attr_rule(RuleAction::DeleteDest, Attribute::Created, Comparison::Greater, Target::Src),
        )
    } else if w == "delete-dest-created-older"@ {
        Some(attr_rule(RuleAction::DeleteDest, Attribute::Created, Comparison::Less, Target::Src))
    } else if w == "delete-src-hash"@ {
        Some(hash_rule(RuleAction::DeleteSrc))
    } else if w == "delete-src-size"@ {
        Some(attr_rule(RuleAction::DeleteSrc, Attribute::Size, Comparison::Equal, Target::Dest))
    } else if w == "delete-src-larger"@ {
        Some(attr_rule(RuleAction::DeleteSrc, Attribute::Size, Comparison::Greater, Target::Src))
    } else if w == "delete-src-smaller"@ {
        Some(attr_rule(RuleAction::DeleteSrc, Attribute::Size, Comparison::Less, Target::Src))
    } else if w == "delete-src-modified-newer"@ {
        Some(attr_rule(RuleAction::DeleteSrc, Attribute::Modified, Comparison::Greater, Target::Src))
    } else if w == "delete-src-modified-older"@ {
        Some(attr_rule(RuleAction::DeleteSrc, Attribute::Modified, Comparison::Less, Target::Src))
    } else if w == "delete-src-created-newer"@ {
        Some(attr_rule(RuleAction::DeleteSrc, Attribute::Created, Comparison::Greater, Target::Src))
    } else if w == "delete-src-created-older"@ {
        Some(attr_rule(RuleAction::DeleteSrc, Attribute::Created, Comparison::Less, Target::Src))
    } else {
        None
    }
}

/// The rules the tokens name, in order; `None` if one names none.
pub open spec fn rules_named(ws: Seq<Seq<char>>) -> Option<Seq<Rule>>
    decreases ws.len(),
{
    if ws.len() == 0 {
        Some(seq![])
    } else {
        match (rules_named(ws.drop_last()), rule_named(ws.last())) {
            (Some(rs), Some(r)) => Some(rs.push(r)),
            _ => None,
        }
    }
}

/// The error text for an unknown rule token.
pub open spec fn unknown_option_text(token: Seq<char>) -> Seq<char> {
    "Unknown file-over-file option: "@ + token
}

/// The error text for an unknown file-over-file mode.
pub open spec fn unknown_mode_text(w: Seq<char>) -> Seq<char> {
    "Unknown file-over-file mode: "@ + w
}

/// The error text for an unknown folder conflict mode, as it was written.
pub open spec fn unknown_folder_mode_text(w: Seq<char>) -> Seq<char> {
    "Unknown folder conflict mode: "@ + w
}

/// The position of the first token that names no rule, if any.
pub open spec fn first_unnamed(ws: Seq<Seq<char>>) -> Option<int>
    decreases ws.len(),
{
    if ws.len() == 0 {
        None
    } else {
        match first_unnamed(ws.drop_last()) {
            Some(i) => Some(i),
            None => if rule_named(ws.last()) is None {
                Some(ws.len() - 1)
            } else {
                None
            },
        }
    }
}

/// Why a file-over-file specification is refused: a last word that is neither a
/// mode nor a rule token is an unknown mode; otherwise the first of the rule tokens
/// that names no rule is an unknown option.
pub open spec fn strategy_error(s: Seq<char>) -> Seq<char> {
    let ws = words(s);
    if file_mode_named(ws.last()) is Some {
        unknown_option_text(ws[first_unnamed(ws.drop_last()).unwrap_or(0)])
    } else if rule_named(ws.last()) is Some {
        unknown_option_text(ws[first_unnamed(ws).unwrap_or(0)])
    } else {
        unknown_mode_text(ws.last())
    }
}

/// The tokens name their rules exactly when no token is unnamed.
proof fn lemma_first_unnamed(ws: Seq<Seq<char>>)
    ensures
        (rules_named(ws) is None) == (first_unnamed(ws) is Some),
        first_unnamed(ws) matches Some(i) ==> 0 <= i < ws.len(),
    decreases ws.len(),
{
    if ws.len() > 0 {
        lemma_first_unnamed(ws.drop_last());
    }
}

/// A longer list keeps the first unnamed token of its prefix.
proof fn lemma_first_unnamed_prefix(ws: Seq<Seq<char>>, k: int, i: int)
    requires
        0 <= k <= ws.len(),
        first_unnamed(ws.subrange(0, k)) == Some(i),
    ensures
        first_unnamed(ws) == Some(i),
    decreases ws.len() - k,
{
    if k < ws.len() {
        assert(ws.subrange(0, k + 1).drop_last() =~= ws.subrange(0, k));
        lemma_first_unnamed_prefix(ws, k + 1, i);
    } else {
        assert(ws.subrange(0, k) =~= ws);
    }
}

/// What a file-over-file specification sets: its whitespace-separated words are
/// rule tokens followed by a mode; no words at all means no rules and `RenameDest`.
/// When the last word is a rule token rather than a mode, every word is a rule and
/// the mode is `DeleteDest` (so `skip-hash` skips on equal hashes and otherwise
/// deletes the destination).
pub open spec fn strategy_of(s: Seq<char>) -> Option<(Seq<Rule>, FileOverFileMode)> {
    let ws = words(s);
    if ws.len() == 0 {
        Some((seq![], FileOverFileMode::RenameDest))
    } else {
        match file_mode_named(ws.last()) {
            Some(m) => match rules_named(ws.drop_last()) {
                Some(rs) => Some((rs, m)),
                None => None,
            },
            None => if rule_named(ws.last()) is Some {
                match rules_named(ws) {
                    Some(rs) => Some((rs, FileOverFileMode::DeleteDest)),
                    None => None,
                }
            } else {
                None
            },
        }
    }
}

/// A rule on the hashes (see `hash_rule`).
fn make_hash_rule(action: RuleAction) -> (r: Rule)
    ensures
        r == hash_rule(action),
{
    Rule { action, attribute: Attribute::Hash, comparison: Comparison::Equal, target: Target::Dest }
}

/// A rule on the sizes.
fn make_size_rule(action: RuleAction, comparison: Comparison, target: Target) -> (r: Rule)
    ensures
        r == attr_rule(action, Attribute::Size, comparison, target),
{
    Rule { action, attribute: Attribute::Size, comparison, target }
}

/// A rule on the modification times.
fn make_modified_rule(action: RuleAction, comparison: Comparison, target: Target) -> (r: Rule)
    ensures
        r == attr_rule(action, Attribute::Modified, comparison, target),
{
    Rule { action, attribute: Attribute::Modified, comparison, target }
}

/// A rule on the creation times.
fn make_created_rule(action: RuleAction, comparison: Comparison, target: Target) -> (r: Rule)
    ensures
        r == attr_rule(action, Attribute::Created, comparison, target),
{
    Rule { action, attribute: Attribute::Created, comparison, target }
}

/// The rule a token names (see `rule_named`); an unknown token is a `Parse` error.
pub fn parse_rule_token(token: &str) -> (r: Result<Rule, NofsError>)
    ensures
        match r {
            Ok(rule) => rule_named(token@) == Some(rule),
            Err(e) => rule_named(token@) is None && (e matches NofsError::Parse(m) && m@
                == unknown_option_text(token@)),
        },
{
    if str_equal(token, "skip-hash") {
        Ok(make_hash_rule(RuleAction::Skip))
    } else if str_equal(token, "skip-size") {
        Ok(make_size_rule(RuleAction::Skip, Comparison::Equal, Target::Dest))
    } else if str_equal(token, "skip-larger") {
        Ok(make_size_rule(RuleAction::Skip, Comparison::Greater, Target::Src))
    } else if str_equal(token, "skip-smaller") {
        Ok(make_size_rule(RuleAction::Skip, Comparison::Less, Target::Src))
    } else if str_equal(token, "skip-modified-newer") {
        Ok(make_modified_rule(RuleAction::Skip, Comparison::Greater, Target::Src))
    } else if str_equal(token, "skip-modified-older") {
        Ok(make_modified_rule(RuleAction::Skip, Comparison::Less, Target::Src))
    } else if str_equal(token, "skip-created-newer") {
        Ok(make_created_rule(RuleAction::Skip, Comparison::Greater, Target::Src))
    } else if str_equal(token, "skip-created-older") {
        Ok(make_created_rule(RuleAction::Skip, Comparison::Less, Target::Src))
    } else if str_equal(token, "delete-dest-hash") {
        Ok(make_hash_rule(RuleAction::DeleteDest))
    } else if str_equal(token, "delete-dest-size") {
        Ok(make_size_rule(RuleAction::DeleteDest, Comparison::Equal, Target::Dest))
    } else if str_equal(token, "delete-dest-larger") {
        Ok(make_size_rule(RuleAction::DeleteDest, Comparison::Greater, Target::Src))
    } else if str_equal(token, "delete-dest-smaller") {
        Ok(make_size_rule(RuleAction::DeleteDest, Comparison::Less, Target::Src))
    } else if str_equal(token, "delete-dest-modified-newer") {
        Ok(make_modified_rule(RuleAction::DeleteDest, Comparison::Greater, Target::Src))
    } else if str_equal(token, "delete-dest-modified-older") {
        Ok(make_modified_rule(RuleAction::DeleteDest, Comparison::Less, Target::Src))
    } else if str_equal(token, "delete-dest-created-newer") {
        Ok(make_created_rule(RuleAction::DeleteDest, Comparison::Greater, Target::Src))
    } else if str_equal(token, "delete-dest-created-older") {
        Ok(make_created_rule(RuleAction::DeleteDest, Comparison::Less, Target::Src))
    } else if str_equal(token, "delete-src-hash") {
        Ok(make_hash_rule(RuleAction::DeleteSrc))
    } else if str_equal(token, "delete-src-size") {
        Ok(make_size_rule(RuleAction::DeleteSrc, Comparison::Equal, Target::Dest))
    } else if str_equal(token, "delete-src-larger") {
        Ok(make_size_rule(RuleAction::DeleteSrc, Comparison::Greater, Target::Src))
    } else if str_equal(token, "delete-src-smaller") {
        Ok(make_size_rule(RuleAction::DeleteSrc, Comparison::Less, Target::Src))
    } else if str_equal(token, "delete-src-modified-newer") {
        Ok(make_modified_rule(RuleAction::DeleteSrc, Comparison::Greater, Target::Src))
    } else if str_equal(token, "delete-src-modified-older") {
        Ok(make_modified_rule(RuleAction::DeleteSrc, Comparison::Less, Target::Src))
    } else if str_equal(token, "delete-src-created-newer") {
        Ok(make_created_rule(RuleAction::DeleteSrc, Comparison::Greater, Target::Src))
    } else if str_equal(token, "delete-src-created-older") {
        Ok(make_created_rule(RuleAction::DeleteSrc, Comparison::Less, Target::Src))
    } else {
        Err(NofsError::Parse(join2("Unknown file-over-file option: ", token)))
    }
}

/// The file-over-file mode with the given name; an unknown one is a `Parse` error.
fn parse_file_mode(w: &str) -> (r: Result<FileOverFileMode, NofsError>)
    ensures
        match r {
            Ok(m) => file_mode_named(w@) == Some(m),
            Err(e) => file_mode_named(w@) is None && (e matches NofsError::Parse(m) && m@
                == unknown_mode_text(w@)),
        },
{
    if str_equal(w, "skip") {
        Ok(FileOverFileMode::Skip)
    } else if str_equal(w, "rename-src") {
        Ok(FileOverFileMode::RenameSrc)
    } else if str_equal(w, "rename-dest") {
        Ok(FileOverFileMode::RenameDest)
    } else if str_equal(w, "delete-src") {
        Ok(FileOverFileMode::DeleteSrc)
    } else if str_equal(w, "delete-dest") {
        Ok(FileOverFileMode::DeleteDest)
    } else {
        Err(NofsError::Parse(join2("Unknown file-over-file mode: ", w)))
    }
}

/// Parses a file-over-file strategy such as `skip-hash rename-dest` (see
/// `strategy_of`); an unknown mode or rule token is a `Parse` error.
pub fn parse_file_over_file(spec: &str) -> (r: Result<FileOverFileStrategy, NofsError>)
    ensures
        match r {
            Ok(st) => strategy_of(spec@) == Some((st.rules@, st.required)),
            Err(e) => strategy_of(spec@) is None && (e matches NofsError::Parse(m) && m@
                == strategy_error(spec@)),
        },
{
    let v = to_chars(spec);
    let parts = split_words(v.as_slice());
    let ghost ws = words(spec@);
    assert(views(parts@).len() == parts@.len());
    if parts.len() == 0 {
        return Ok(FileOverFileStrategy { rules: Vec::new(), required: FileOverFileMode::RenameDest });
    }
    let n = parts.len();
    let last = string_of(parts[n - 1].as_slice());
    assert(last@ == ws.last());
    let (required, count) = match parse_file_mode(last.as_str()) {
        Ok(m) => (m, n - 1),
        Err(e) => match parse_rule_token(last.as_str()) {
            Ok(_) => (FileOverFileMode::DeleteDest, n),
            Err(_) => return Err(e),
        },
    };
    let mut rules: Vec<Rule> = Vec::new();
    let mut i: usize = 0;
    while i < count
        invariant
            n == parts@.len() == ws.len(),
            n >= 1,
            count == n - 1 || count == n,
            count == n - 1 ==> file_mode_named(ws.last()) == Some(required),
            count == n ==> file_mode_named(ws.last()) is None && rule_named(ws.last()) is Some
                && required == FileOverFileMode::DeleteDest,
            i <= count,
            views(parts@) == ws,
            ws == words(spec@),
            rules_named(ws.subrange(0, i as int)) == Some(rules@),
            first_unnamed(ws.subrange(0, i as int)) is None,
        decreases count - i,
    {
        let token = string_of(parts[i].as_slice());
        assert(token@ == ws[i as int]);
        assert(ws.subrange(0, i + 1).drop_last() =~= ws.subrange(0, i as int));
        match parse_rule_token(token.as_str()) {
            Ok(rule) => {
                rules.push(rule);
                assert(ws.subrange(0, i + 1).last() == ws[i as int]);
            },
            Err(e) => {
                proof {
                    assert(ws.subrange(0, i + 1).last() == ws[i as int]);
                    assert(rules_named(ws.subrange(0, i + 1)) is None);
                    assert(ws.subrange(0, count as int).subrange(0, i + 1) =~= ws.subrange(0, i + 1));
                    lemma_rules_named_prefix(ws.subrange(0, count as int), i as int + 1);
                    assert(first_unnamed(ws.subrange(0, i + 1)) == Some(i as int));
                    lemma_first_unnamed_prefix(ws.subrange(0, count as int), i as int + 1, i as int);
                    assert(ws.subrange(0, count as int)[i as int] == ws[i as int]);
                    assert(ws.subrange(0, n - 1) =~= ws.drop_last());
                    assert(ws.subrange(0, n as int) =~= ws);
                }
                return Err(e);
            },
        }
        i = i + 1;
    }
    assert(ws.subrange(0, n - 1) =~= ws.drop_last());
    assert(ws.subrange(0, n as int) =~= ws);
    Ok(FileOverFileStrategy { rules, required })
}

/// A token that names no rule spoils every longer list of tokens.
proof fn lemma_rules_named_prefix(ws: Seq<Seq<char>>, k: int)
    requires
        0 <= k <= ws.len(),
        rules_named(ws.subrange(0, k)) is None,
    ensures
        rules_named(ws) is None,
    decreases ws.len() - k,
{
    if k < ws.len() {
        assert(ws.subrange(0, k + 1).drop_last() =~= ws.subrange(0, k));
        lemma_rules_named_prefix(ws, k + 1);
    } else {
        assert(ws.subrange(0, k) =~= ws);
    }
}

/// Parses a folder conflict mode, ignoring case (see `folder_mode_named`); an unknown
/// one is a `Parse` error.
pub fn parse_folder_conflict_mode(s: &str) -> (r: Result<FolderConflictMode, NofsError>)
    ensures
        match r {
            Ok(m) => folder_mode_named(lower_text(s@)) == Some(m),
            Err(e) => folder_mode_named(lower_text(s@)) is None && (e matches NofsError::Parse(m)
                && m@ == unknown_folder_mode_text(s@)),
        },
{
    let lower = to_lowercase(s);
    let w = lower.as_str();
    if str_equal(w, "skip") {
        Ok(FolderConflictMode::Skip)
    } else if str_equal(w, "rename-src") {
        Ok(FolderConflictMode::RenameSrc)
    } else if str_equal(w, "rename-dest") {
        Ok(FolderConflictMode::RenameDest)
    } else if str_equal(w, "delete-src") {
        Ok(FolderConflictMode::DeleteSrc)
    } else if str_equal(w, "delete-dest") {
        Ok(FolderConflictMode::DeleteDest)
    } else if str_equal(w, "merge") {
        Ok(FolderConflictMode::Merge)
    } else {
        Err(NofsError::Parse(join2("Unknown folder conflict mode: ", s)))
    }
}

/// What is known of a source file and the destination file it would replace.
#[derive(Debug, Clone, Copy)]
pub struct FileComparison {
    /// Whether their content hashes match.
    pub hashes_match: bool,
    /// Source size in bytes.
    pub src_size: u64,
    /// Destination size in bytes.
    pub dest_size: u64,
    /// Source modification time, when known.
    pub src_modified: Option<u64>,
    /// Destination modification time, when known.
    pub dest_modified: Option<u64>,
    /// Source creation time, when known.
    pub src_created: Option<u64>,
    /// Destination creation time, when known.
    pub dest_created: Option<u64>,
}

/// Whether `a` relates to `b` as the comparison says.
pub open spec fn compares(a: u64, b: u64, c: Comparison) -> bool {
    match c {
        Comparison::Equal => a == b,
        Comparison::Greater => a > b,
        Comparison::Less => a < b,
    }
}

/// Whether two times relate as the comparison says; never when one is unknown.
pub open spec fn compares_known(a: Option<u64>, b: Option<u64>, c: Comparison) -> bool {
    match (a, b) {
        (Some(x), Some(y)) => compares(x, y, c),
        _ => false,
    }
}

/// Whether a rule's condition holds of the source and destination: hashes match (for
/// an equality rule on hashes), or the source's attribute relates to the
/// destination's as the rule says.
pub open spec fn rule_holds(rule: Rule, facts: FileComparison) -> bool {
    match rule.attribute {
        Attribute::Hash => rule.comparison == Comparison::Equal && facts.hashes_match,
        Attribute::Size => compares(facts.src_size, facts.dest_size, rule.comparison),
        Attribute::Modified => compares_known(
            facts.src_modified,
            facts.dest_modified,
            rule.comparison,
        ),
        Attribute::Created => compares_known(facts.src_created, facts.dest_created, rule.comparison),
    }
}

/// Whether two known values relate as the comparison says (see `compares_known`).
fn compare_known(a: Option<u64>, b: Option<u64>, c: Comparison) -> (r: bool)
    ensures
        r == compares_known(a, b, c),
{
    match (a, b) {
        (Some(x), Some(y)) => match c {
            Comparison::Equal => x == y,
            Comparison::Greater => x > y,
            Comparison::Less => x < y,
        },
        _ => false,
    }
}

/// Whether the rule's condition holds (see `rule_holds`).
pub fn evaluate_rule(rule: &Rule, facts: &FileComparison) -> (r: bool)
    ensures
        r == rule_holds(*rule, *facts),
{
    match rule.attribute {
        Attribute::Hash => rule.comparison == Comparison::Equal && facts.hashes_match,
        Attribute::Size => match rule.comparison {
            Comparison::Equal => facts.src_size == facts.dest_size,
            Comparison::Greater => facts.src_size > facts.dest_size,
            Comparison::Less => facts.src_size < facts.dest_size,
        },
        Attribute::Modified => compare_known(facts.src_modified, facts.dest_modified, rule.comparison),
        Attribute::Created => compare_known(facts.src_created, facts.dest_created, rule.comparison),
    }
}

/// The outcome of trying the rules.
#[derive(Debug, Clone, Copy, PartialEq, Eq, Structural)]
pub enum RuleResult {
    /// A `Skip` rule matched.
    Skip,
    /// A `DeleteSrc` rule matched.
    DeleteSrc,
    /// A `DeleteDest` rule matched.
    DeleteDest,
    /// No rule matched.
    NoMatch,
}

/// The position of the first rule whose condition holds, if any.
pub open spec fn first_match(rules: Seq<Rule>, facts: FileComparison) -> Option<int>
    decreases rules.len(),
{
    if rules.len() == 0 {
        None
    } else {
        match first_match(rules.drop_last(), facts) {
            Some(i) => Some(i),
            None => if rule_holds(rules.last(), facts) {
                Some(rules.len() - 1)
            } else {
                None
            },
        }
    }
}

/// The outcome of a rule's action.
pub open spec fn result_of_action(a: RuleAction) -> RuleResult {
    match a {
        RuleAction::Skip => RuleResult::Skip,
        RuleAction::DeleteSrc => RuleResult::DeleteSrc,
        RuleAction::DeleteDest => RuleResult::DeleteDest,
    }
}

/// The position of the first rule whose condition holds (see `first_match`).
pub fn first_matching_rule(rules: &[Rule], facts: &FileComparison) -> (r: Option<usize>)
    ensures
        match r {
            Some(i) => i < rules@.len() && first_match(rules@, *facts) == Some(i as int),
            None => first_match(rules@, *facts) is None,
        },
{
    let mut i: usize = 0;
    while i < rules.len()
        invariant
            i <= rules@.len(),
            first_match(rules@.subrange(0, i as int), *facts) is None,
        decreases rules.len() - i,
    {
        assert(rules@.subrange(0, i + 1).drop_last() =~= rules@.subrange(0, i as int));
        if evaluate_rule(&rules[i], facts) {
            proof {
                lemma_first_match_extends(rules@, *facts, i as int + 1);
            }
            return Some(i);
        }
        i = i + 1;
    }
    assert(rules@.subrange(0, i as int) =~= rules@);
    None
}

/// A first match among a prefix of the rules is the first match among all of them.
proof fn lemma_first_match_extends(rules: Seq<Rule>, facts: FileComparison, k: int)
    requires
        0 <= k <= rules.len(),
        first_match(rules.subrange(0, k), facts) is Some,
    ensures
        first_match(rules, facts) == first_match(rules.subrange(0, k), facts),
    decreases rules.len() - k,
{
    if k < rules.len() {
        assert(rules.subrange(0, k + 1).drop_last() =~= rules.subrange(0, k));
        lemma_first_match_extends(rules, facts, k + 1);
    } else {
        assert(rules.subrange(0, k) =~= rules);
    }
}

/// The outcome of the strategy's rules: the action of the first rule whose condition
/// holds, or `NoMatch`.
pub fn rule_result(strategy: &FileOverFileStrategy, facts: &FileComparison) -> (r: RuleResult)
    ensures
        r == match first_match(strategy.rules@, *facts) {
            Some(i) => result_of_action(strategy.rules@[i].action),
            None => RuleResult::NoMatch,
        },
{
    match first_matching_rule(strategy.rules.as_slice(), facts) {
        Some(i) => match strategy.rules[i].action {
            RuleAction::Skip => RuleResult::Skip,
            RuleAction::DeleteSrc => RuleResult::DeleteSrc,
            RuleAction::DeleteDest => RuleResult::DeleteDest,
        },
        None => RuleResult::NoMatch,
    }
}

/// Whether some rule of the strategy compares hashes (then the files must be hashed).
pub fn needs_hash(strategy: &FileOverFileStrategy) -> (r: bool)
    ensures
        r == exists|i: int|
            0 <= i < strategy.rules@.len() && (#[trigger] strategy.rules@[i]).attribute
                == Attribute::Hash,
{
    let mut i: usize = 0;
    while i < strategy.rules.len()
        invariant
            i <= strategy.rules@.len(),
            forall|j: int| 0 <= j < i ==> (#[trigger] strategy.rules@[j]).attribute != Attribute::Hash,
        decreases strategy.rules.len() - i,
    {
        if strategy.rules[i].attribute == Attribute::Hash {
            return true;
        }
        i = i + 1;
    }
    false
}

/// Counts of what a copy or move did.
#[derive(Debug, Clone, Copy)]
pub struct CopyStats {
    /// Files copied or moved.
    pub files_copied: u64,
    /// Folders created.
    pub folders_created: u64,
    /// Bytes copied or moved.
    pub bytes_copied: u64,
    /// Files left alone.
    pub files_skipped: u64,
    /// Conflicts met and resolved.
    pub conflicts_resolved: u64,
    /// Errors met.
    pub errors: u64,
    /// Files counted against the file limit.
    pub files_reserved: u64,
    /// Bytes counted against the size limit.
    pub bytes_reserved: u64,
}

impl Default for CopyStats {
    /// All counts zero.
    fn default() -> (r: Self)
        ensures
            r.files_copied == 0 && r.folders_created == 0 && r.bytes_copied == 0
                && r.files_skipped == 0 && r.conflicts_resolved == 0 && r.errors == 0
                && r.files_reserved == 0 && r.bytes_reserved == 0,
    {
        CopyStats {
            files_copied: 0,
            folders_created: 0,
            bytes_copied: 0,
            files_skipped: 0,
            conflicts_resolved: 0,
            errors: 0,
            files_reserved: 0,
            bytes_reserved: 0,
        }
    }
}

/// Bounds on the size of each file a copy takes.
#[derive(Debug, Clone, Copy)]
pub struct SizeFilter {
    /// Smallest size taken, in bytes.
    pub min: Option<u64>,
    /// Largest size taken, in bytes.
    pub max: Option<u64>,
}

/// How a copy or move runs.
#[derive(Debug, Clone)]
pub struct CopyConfig {
    /// Copy (`true`) or move (`false`).
    pub is_copy: bool,
    /// Only report what would be done.
    pub dry_run: bool,
    /// Number of parallel workers.
    pub workers: usize,
    /// Report each step.
    pub verbose: bool,
    /// How file-over-file conflicts are resolved.
    pub file_over_file: FileOverFileStrategy,
    /// How a file copied onto a folder is handled.
    pub file_over_folder: FolderConflictMode,
    /// How a folder copied onto a file is handled.
    pub folder_over_file: FolderConflictMode,
    /// Extensions taken (all when empty).
    pub extensions: Vec<String>,
    /// Glob patterns of names left out.
    pub exclude: Vec<String>,
    /// Glob patterns of names taken (all when empty).
    pub include_patterns: Vec<String>,
    /// Most files taken.
    pub limit: Option<u64>,
    /// Most bytes taken.
    pub size_limit: Option<u64>,
    /// Bounds on each file's size.
    pub size: Option<SizeFilter>,
}

impl Default for CopyConfig {
    /// A copy with four workers, default conflict handling (see
    /// `FileOverFileStrategy::default`, `Merge` for folders) and no filters or limits.
    fn default() -> (r: Self)
        ensures
            r.is_copy && !r.dry_run && r.workers == 4 && !r.verbose,
            r.file_over_file.rules@.len() == 0,
            r.file_over_file.required == FileOverFileMode::DeleteDest,
            r.file_over_folder == FolderConflictMode::Merge,
            r.folder_over_file == FolderConflictMode::Merge,
            r.extensions@.len() == 0 && r.exclude@.len() == 0 && r.include_patterns@.len() == 0,
            r.limit is None && r.size_limit is None && r.size is None,
    {
        CopyConfig {
            is_copy: true,
            dry_run: false,
            workers: 4,
            verbose: false,
            file_over_file: FileOverFileStrategy::default(),
            file_over_folder: FolderConflictMode::Merge,
            folder_over_file: FolderConflictMode::Merge,
            extensions: Vec::new(),
            exclude: Vec::new(),
            include_patterns: Vec::new(),
            limit: None,
            size_limit: None,
            size: None,
        }
    }
}

/// Whether a file of the given size passes the size filter (every size passes when
/// there is none).
pub open spec fn size_allowed(size: u64, filter: Option<SizeFilter>) -> bool {
    match filter {
        None => true,
        Some(f) => (f.min matches Some(m) ==> size >= m) && (f.max matches Some(m) ==> size <= m),
    }
}

/// Whether a file of the given size passes the size filter (see `size_allowed`).
pub fn size_in_filter(size: u64, filter: Option<SizeFilter>) -> (r: bool)
    ensures
        r == size_allowed(size, filter),
{
    match filter {
        None => true,
        Some(f) => {
            let above = match f.min {
                Some(m) => size >= m,
                None => true,
            };
            let below = match f.max {
                Some(m) => size <= m,
                None => true,
            };
            above && below
        },
    }
}

/// The sum of two counts, capped at the largest `u64`.
pub open spec fn saturating_sum(a: u64, b: u64) -> u64 {
    if a + b > u64::MAX {
        u64::MAX
    } else {
        (a + b) as u64
    }
}

/// The bytes counted against the size limit once a file of `size` bytes is taken, or
/// `None` when taking it would pass the limit (no limit: nothing is counted).
pub open spec fn bytes_after(reserved: u64, size: u64, limit: Option<u64>) -> Option<u64> {
    match limit {
        None => Some(reserved),
        Some(l) => if saturating_sum(reserved, size) > l {
            None
        } else {
            Some(saturating_sum(reserved, size))
        },
    }
}

/// The files counted against the file limit once one more is taken, or `None` when
/// the limit is reached (no limit: nothing is counted).
pub open spec fn files_after(reserved: u64, limit: Option<u64>) -> Option<u64> {
    match limit {
        None => Some(reserved),
        Some(l) => if reserved >= l {
            None
        } else {
            Some((reserved + 1) as u64)
        },
    }
}

/// One file of `size` bytes offered against the limits, from the counters `files`
/// and `bytes`: the counters after it and whether it is taken. The bytes are counted
/// first; a file refused by the file limit leaves its bytes counted.
pub open spec fn reservation_step(
    files: u64,
    bytes: u64,
    size: u64,
    file_limit: Option<u64>,
    size_limit: Option<u64>,
) -> (u64, u64, bool) {
    match bytes_after(bytes, size, size_limit) {
        None => (files, bytes, false),
        Some(b) => match files_after(files, file_limit) {
            None => (files, b, false),
            Some(f) => (f, b, true),
        },
    }
}

/// Files of the given sizes offered one after another: the counters at the end and
/// how many files were taken.
pub open spec fn reservation_run(
    files: u64,
    bytes: u64,
    sizes: Seq<u64>,
    file_limit: Option<u64>,
    size_limit: Option<u64>,
) -> (u64, u64, nat)
    decreases sizes.len(),
{
    if sizes.len() == 0 {
        (files, bytes, 0)
    } else {
        let before = reservation_run(files, bytes, sizes.drop_last(), file_limit, size_limit);
        let step = reservation_step(before.0, before.1, sizes.last(), file_limit, size_limit);
        (step.0, step.1, before.2 + if step.2 { 1nat } else { 0nat })
    }
}

/// However many files are offered, the counters never pass their limits, and with a
/// file limit the files taken are exactly what its counter grew by (so at most the
/// limit).
pub proof fn law_limits_hold_over_a_run(
    files: u64,
    bytes: u64,
    sizes: Seq<u64>,
    file_limit: Option<u64>,
    size_limit: Option<u64>,
)
    requires
        file_limit matches Some(l) ==> files <= l,
        size_limit matches Some(l) ==> bytes <= l,
    ensures
        file_limit matches Some(l) ==> reservation_run(files, bytes, sizes, file_limit, size_limit).0
            <= l,
        size_limit matches Some(l) ==> reservation_run(files, bytes, sizes, file_limit, size_limit).1
            <= l,
        file_limit is Some ==> reservation_run(files, bytes, sizes, file_limit, size_limit).0 == files
            + reservation_run(files, bytes, sizes, file_limit, size_limit).2,
    decreases sizes.len(),
{
    if sizes.len() > 0 {
        law_limits_hold_over_a_run(files, bytes, sizes.drop_last(), file_limit, size_limit);
    }
}

/// Offers one file of `size` bytes against the limits of a run (see
/// `reservation_step`), counting it in `stats`; whether it is taken.
pub fn reserve_transfer(
    stats: &mut CopyStats,
    size: u64,
    file_limit: Option<u64>,
    size_limit: Option<u64>,
) -> (taken: bool)
    ensures
        (final(stats).files_reserved, final(stats).bytes_reserved, taken) == reservation_step(
            old(stats).files_reserved,
            old(stats).bytes_reserved,
            size,
            file_limit,
            size_limit,
        ),
        final(stats).files_copied == old(stats).files_copied,
        final(stats).folders_created == old(stats).folders_created,
        final(stats).bytes_copied == old(stats).bytes_copied,
        final(stats).files_skipped == old(stats).files_skipped,
        final(stats).conflicts_resolved == old(stats).conflicts_resolved,
        final(stats).errors == old(stats).errors,
{
    match reserve_bytes(stats.bytes_reserved, size, size_limit) {
        Some(v) => stats.bytes_reserved = v,
        None => return false,
    }
    match reserve_file(stats.files_reserved, file_limit) {
        Some(v) => {
            stats.files_reserved = v;
            true
        },
        None => false,
    }
}

/// The bytes counted against the size limit once a file of `size` bytes is taken, or
/// `None` when taking it would pass the limit (no limit: always taken).
pub fn reserve_bytes(reserved: u64, size: u64, limit: Option<u64>) -> (r: Option<u64>)
    ensures
        r == bytes_after(reserved, size, limit),
{
    match limit {
        None => Some(reserved),
        Some(l) => {
            let next = reserved.saturating_add(size);
            if next > l {
                None
            } else {
                Some(next)
            }
        },
    }
}

/// The files counted against the file limit once one more is taken, or `None` when
/// the limit is reached (no limit: always taken).
pub fn reserve_file(reserved: u64, limit: Option<u64>) -> (r: Option<u64>)
    ensures
        r == files_after(reserved, limit),
{
    match limit {
        None => Some(reserved),
        Some(l) => if reserved >= l {
            None
        } else {
            Some(reserved + 1)
        },
    }
}

/// The extension of a file name: what follows its last `.`, unless there is none or
/// the only one starts the name.
pub open spec fn extension_of(name: Seq<char>) -> Option<Seq<char>> {
    let i = last_index(name, '.');
    if i <= 0 {
        None
    } else {
        Some(name.subrange(i + 1, name.len() as int))
    }
}

/// What `Path::extension` gives for a path: the extension of its file name.
pub open spec fn path_extension(p: Seq<char>) -> Option<Seq<char>> {
    match file_name_part(p) {
        Some(n) => extension_of(n),
        None => None,
    }
}

/// The extension of a path, or the empty text when it has none.
pub open spec fn extension_or_empty(p: Seq<char>) -> Seq<char> {
    match path_extension(p) {
        Some(e) => e,
        None => Seq::empty(),
    }
}

/// Whether a file passes the extension filter: every file passes an empty one;
/// otherwise its extension must be one of those listed, each with any leading dots
/// left out.
pub open spec fn extension_allowed(p: Seq<char>, extensions: Seq<String>) -> bool {
    extensions.len() == 0 || exists|i: int|
        0 <= i < extensions.len() && strip_leading((#[trigger] extensions[i])@, '.')
            == extension_or_empty(p)
}

/// The extension of a path, or the empty text (see `extension_or_empty`).
fn extension_text(source: &str) -> (r: String)
    ensures
        r@ == extension_or_empty(source@),
{
    match path_file_name(source) {
        None => String::new(),
        Some(name) => {
            let v = to_chars(name.as_str());
            match find_last_char(v.as_slice(), '.') {
                None => String::new(),
                Some(i) => {
                    if i == 0 {
                        String::new()
                    } else {
                        proof {
                            lemma_last_index(v@, '.');
                        }
                        string_of_range(v.as_slice(), i + 1, v.len())
                    }
                },
            }
        },
    }
}

/// Whether the file passes the extension filter (see `extension_allowed`).
pub fn matches_extension(source: &str, extensions: &[String]) -> (r: bool)
    ensures
        r == extension_allowed(source@, extensions@),
{
    if extensions.len() == 0 {
        return true;
    }
    let ext = extension_text(source);
    let mut i: usize = 0;
    while i < extensions.len()
        invariant
            i <= extensions@.len(),
            ext@ == extension_or_empty(source@),
            forall|j: int|
                0 <= j < i ==> strip_leading((#[trigger] extensions@[j])@, '.') != ext@,
        decreases extensions.len() - i,
    {
        let v = to_chars(extensions[i].as_str());
        let k = strip_leading_pos(v.as_slice(), '.');
        let stripped = string_of_range(v.as_slice(), k, v.len());
        if str_equal(stripped.as_str(), ext.as_str()) {
            return true;
        }
        i = i + 1;
    }
    false
}

/// What `glob::Pattern::new(pattern)` followed by `Pattern::matches(name)` answers:
/// whether the name matches the glob pattern (never, when the pattern does not
/// compile).
pub uninterp spec fn glob_matches(pattern: Seq<char>, name: Seq<char>) -> bool;

/// `glob::Pattern::new` then `Pattern::matches`; a pattern that does not compile
/// matches nothing. Its result is named `glob_matches` of the pattern and the name;
/// glob's matching rules are not restated here.
#[verifier::external_body]
pub(crate) fn glob_match(pattern: &str, name: &str) -> (r: bool)
    ensures
        r == glob_matches(pattern@, name@),
{
    match glob::Pattern::new(pattern) {
        Ok(p) => p.matches(name),
        Err(_) => false,
    }
}

/// Whether some pattern matches the name.
pub open spec fn any_glob(patterns: Seq<String>, name: Seq<char>) -> bool {
    exists|i: int| 0 <= i < patterns.len() && glob_matches((#[trigger] patterns[i])@, name)
}

/// Whether a file passes the name filters: its name (the last component of its path)
/// must match one of the `wanted` patterns, if there are any, and none of the
/// `unwanted` ones.
pub open spec fn names_allowed(p: Seq<char>, wanted: Seq<String>, unwanted: Seq<String>) -> bool {
    (wanted.len() == 0 || any_glob(wanted, reported_name(p))) && !any_glob(
        unwanted,
        reported_name(p),
    )
}

/// Whether some pattern matches the name (see `any_glob`).
fn any_pattern_matches(patterns: &[String], name: &str) -> (r: bool)
    ensures
        r == any_glob(patterns@, name@),
{
    let mut i: usize = 0;
    while i < patterns.len()
        invariant
            i <= patterns@.len(),
            forall|j: int| 0 <= j < i ==> !glob_matches((#[trigger] patterns@[j])@, name@),
        decreases patterns.len() - i,
    {
        if glob_match(patterns[i].as_str(), name) {
            return true;
        }
        i = i + 1;
    }
    false
}

/// Whether the file passes the wanted and unwanted patterns (see `names_allowed`).
pub fn matches_filters(source: &str, wanted: &[String], unwanted: &[String]) -> (r: bool)
    ensures
        r == names_allowed(source@, wanted@, unwanted@),
{
    let name = match path_file_name(source) {
        Some(n) => n,
        None => String::from_str(source),
    };
    if wanted.len() > 0 && !any_pattern_matches(wanted, name.as_str()) {
        return false;
    }
    !any_pattern_matches(unwanted, name.as_str())
}

/// The value of a run of ASCII digit bytes.
pub open spec fn byte_digits_value(d: Seq<u8>) -> nat
    decreases d.len(),
{
    if d.len() == 0 {
        0
    } else {
        byte_digits_value(d.drop_last()) * 10 + (d.last() - 48) as nat
    }
}

/// Whether every byte is an ASCII digit.
pub open spec fn all_digit_bytes(d: Seq<u8>) -> bool {
    forall|i: int| 0 <= i < d.len() ==> 48 <= #[trigger] d[i] <= 57
}

/// The position of the last `b` in `s`, or -1.
pub open spec fn last_byte_index(s: Seq<u8>, b: u8) -> int
    decreases s.len(),
{
    if s.len() == 0 {
        -1
    } else if s.last() == b {
        s.len() - 1
    } else {
        last_byte_index(s.drop_last(), b)
    }
}

/// How a name ending in `_N` (`N` a number that fits in `u32`) is numbered: its
/// length without the suffix and `N + 1` (wrapping at the top of `u32`); any other
/// name keeps its length and starts from 1.
pub open spec fn suffix_and_index(stem: Seq<u8>) -> (nat, u32) {
    let u = last_byte_index(stem, 95);
    let digits = stem.subrange(u + 1, stem.len() as int);
    if u >= 0 && digits.len() > 0 && all_digit_bytes(digits) && byte_digits_value(digits)
        <= u32::MAX {
        (
            u as nat,
            if byte_digits_value(digits) == u32::MAX {
                0u32
            } else {
                (byte_digits_value(digits) + 1) as u32
            },
        )
    } else {
        (stem.len(), 1u32)
    }
}

proof fn lemma_last_byte_index(s: Seq<u8>, b: u8)
    ensures
        -1 <= last_byte_index(s, b) < s.len(),
        last_byte_index(s, b) >= 0 ==> s[last_byte_index(s, b)] == b,
    decreases s.len(),
{
    if s.len() > 0 && s.last() != b {
        lemma_last_byte_index(s.drop_last(), b);
    }
}

/// The length of a name's base and the first number to try for a new `_N` name
/// (see `suffix_and_index`): `file_1` gives `file` and 2.
pub fn find_suffix_and_index_bytes(stem: &[u8]) -> (r: (usize, u32))
    ensures
        r.0 as nat == suffix_and_index(stem@).0,
        r.1 == suffix_and_index(stem@).1,
{
    let n = stem.len();
    let mut k: usize = n;
    assert(stem@.subrange(0, k as int) =~= stem@);
    while k > 0 && stem[k - 1] != 95u8
        invariant
            k <= n == stem@.len(),
            last_byte_index(stem@, 95) == last_byte_index(stem@.subrange(0, k as int), 95),
        decreases k,
    {
        assert(stem@.subrange(0, k as int).drop_last() =~= stem@.subrange(0, k - 1));
        k = k - 1;
    }
    proof {
        if k > 0 {
            assert(stem@.subrange(0, k as int).last() == 95u8);
        }
        lemma_last_byte_index(stem@, 95);
    }
    if k == 0 {
        return (n, 1);
    }
    let u = k - 1;
    if u + 1 >= n {
        return (n, 1);
    }
    let ghost digits = stem@.subrange(u + 1, n as int);
    let mut value: u64 = 0;
    let mut j: usize = u + 1;
    assert(stem@.subrange(u + 1, j as int) =~= Seq::<u8>::empty());
    while j < n
        invariant
            u + 1 <= j <= n == stem@.len(),
            u as int == last_byte_index(stem@, 95),
            digits == stem@.subrange(u + 1, n as int),
            all_digit_bytes(stem@.subrange(u + 1, j as int)),
            value as nat == byte_digits_value(stem@.subrange(u + 1, j as int)),
            value <= 0xffff_ffff,
        decreases n - j,
    {
        let b = stem[j];
        if b < 48u8 || b > 57u8 {
            proof {
                assert(digits[j - (u + 1)] == b);
            }
            return (n, 1);
        }
        let next: u64 = value * 10 + ((b - 48u8) as u64);
        assert(stem@.subrange(u + 1, j + 1).drop_last() =~= stem@.subrange(u + 1, j as int));
        if next > 0xffff_ffff {
            proof {
                if all_digit_bytes(digits) {
                    lemma_digits_grow(digits, (j + 1 - (u + 1)) as int);
                    assert(digits.subrange(0, j + 1 - (u + 1)) =~= stem@.subrange(u + 1, j + 1));
                }
            }
            return (n, 1);
        }
        value = next;
        j = j + 1;
    }
    let num = value as u32;
    if num == 0xffff_ffffu32 {
        (u, 0)
    } else {
        (u, num + 1)
    }
}

/// The value of a run of digits is at least that of any prefix.
proof fn lemma_digits_grow(d: Seq<u8>, k: int)
    requires
        0 <= k <= d.len(),
        all_digit_bytes(d),
    ensures
        byte_digits_value(d) >= byte_digits_value(d.subrange(0, k)),
    decreases d.len() - k,
{
    if k < d.len() {
        lemma_digits_grow(d, k + 1);
        assert(d.subrange(0, k + 1).drop_last() =~= d.subrange(0, k));
        assert(48 <= d[k] <= 57);
    } else {
        assert(d.subrange(0, k) =~= d);
    }
}

/// Where a file name splits into stem and extension: at its last `.`, unless there is
/// none or it starts the name (then the whole name is the stem).
pub open spec fn stem_end(name: Seq<u8>) -> nat {
    let d = last_byte_index(name, 46);
    if d > 0 {
        d as nat
    } else {
        name.len()
    }
}

/// Where a file name splits into stem and extension (see `stem_end`).
pub fn split_stem(name: &[u8]) -> (r: usize)
    ensures
        r as nat == stem_end(name@),
        r <= name@.len(),
{
    let n = name.len();
    let mut k: usize = n;
    assert(name@.subrange(0, k as int) =~= name@);
    while k > 0 && name[k - 1] != 46u8
        invariant
            k <= n == name@.len(),
            last_byte_index(name@, 46) == last_byte_index(name@.subrange(0, k as int), 46),
        decreases k,
    {
        assert(name@.subrange(0, k as int).drop_last() =~= name@.subrange(0, k - 1));
        k = k - 1;
    }
    proof {
        if k > 0 {
            assert(name@.subrange(0, k as int).last() == 46u8);
        }
    }
    if k > 1 {
        k - 1
    } else {
        n
    }
}

/// The ASCII byte of a decimal digit.
pub open spec fn digit_byte(d: nat) -> u8 {
    (48 + d % 10) as u8
}

/// The decimal digits of `n` as ASCII bytes.
pub open spec fn decimal_bytes(n: nat) -> Seq<u8>
    decreases n,
{
    if n < 10 {
        seq![digit_byte(n)]
    } else {
        decimal_bytes(n / 10).push(digit_byte(n % 10))
    }
}

/// Appends the decimal digits of `n` to `out`.
fn push_decimal_bytes(out: &mut Vec<u8>, n: u32)
    ensures
        final(out)@ == old(out)@ + decimal_bytes(n as nat),
    decreases n,
{
    if n < 10 {
        out.push(48u8 + (n as u8));
        assert(decimal_bytes(n as nat) =~= seq![digit_byte(n as nat)]);
    } else {
        push_decimal_bytes(out, n / 10);
        out.push(48u8 + ((n % 10) as u8));
        assert(old(out)@ + decimal_bytes(n as nat) =~= old(out)@ + decimal_bytes((n / 10) as nat)
            + seq![digit_byte((n % 10) as nat)]);
    }
}

/// The name `base_N` followed by the extension `ext`, as bytes.
pub fn numbered_name(base: &[u8], n: u32, ext: &[u8]) -> (r: Vec<u8>)
    ensures
        r@ == base@ + seq![95u8] + decimal_bytes(n as nat) + ext@,
{
    let mut out: Vec<u8> = Vec::new();
    let mut i: usize = 0;
    while i < base.len()
        invariant
            i <= base@.len(),
            out@ == base@.subrange(0, i as int),
        decreases base.len() - i,
    {
        out.push(base[i]);
        i = i + 1;
        assert(out@ =~= base@.subrange(0, i as int));
    }
    assert(base@.subrange(0, i as int) =~= base@);
    out.push(95u8);
    push_decimal_bytes(&mut out, n);
    let ghost mid = out@;
    let mut j: usize = 0;
    while j < ext.len()
        invariant
            j <= ext@.len(),
            out@ == mid + ext@.subrange(0, j as int),
        decreases ext.len() - j,
    {
        out.push(ext[j]);
        j = j + 1;
        assert(out@ =~= mid + ext@.subrange(0, j as int));
    }
    assert(ext@.subrange(0, j as int) =~= ext@);
    out
}

/// The decimal bytes of a number are digits, with that value.
proof fn lemma_decimal_bytes(n: nat)
    ensures
        decimal_bytes(n).len() >= 1,
        all_digit_bytes(decimal_bytes(n)),
        byte_digits_value(decimal_bytes(n)) == n,
    decreases n,
{
    let d = decimal_bytes(n);
    let k = n % 10;
    assert(k % 10 == k);
    assert(digit_byte(k) == 48 + k);
    assert(d.last() == digit_byte(k));
    assert(byte_digits_value(d) == byte_digits_value(d.drop_last()) * 10 + k);
    if n >= 10 {
        lemma_decimal_bytes(n / 10);
        assert(d.drop_last() =~= decimal_bytes(n / 10));
        assert forall|i: int| 0 <= i < d.len() implies 48 <= #[trigger] d[i] <= 57 by {
            if i < d.len() - 1 {
                assert(d[i] == decimal_bytes(n / 10)[i]);
            }
        }
    } else {
        assert(d.drop_last() =~= Seq::<u8>::empty());
    }
}

/// Numbering carries on from a number already given: a name `base_N` (as
/// `numbered_name` writes it, with no extension) is numbered from `N + 1`, on the
/// same base.
pub proof fn lemma_numbering_continues(base: Seq<u8>, n: u32)
    requires
        n < u32::MAX,
    ensures
        suffix_and_index(base + seq![95u8] + decimal_bytes(n as nat)) == (base.len(), (n + 1) as u32),
{
    let d = decimal_bytes(n as nat);
    let stem = base + seq![95u8] + d;
    lemma_decimal_bytes(n as nat);
    lemma_last_byte_after(base + seq![95u8], d, 95u8);
    assert(stem.subrange(base.len() as int + 1, stem.len() as int) =~= d);
}

/// The last `b` of `a + t`, where `a` ends with `b` and `t` holds none, ends `a`.
proof fn lemma_last_byte_after(a: Seq<u8>, t: Seq<u8>, b: u8)
    requires
        a.len() > 0,
        a.last() == b,
        forall|i: int| 0 <= i < t.len() ==> #[trigger] t[i] != b,
    ensures
        last_byte_index(a + t, b) == a.len() - 1,
    decreases t.len(),
{
    if t.len() == 0 {
        assert(a + t =~= a);
    } else {
        assert((a + t).drop_last() =~= a + t.drop_last());
        assert((a + t).last() == t.last());
        lemma_last_byte_after(a, t.drop_last(), b);
    }
}

/// What `char::is_alphanumeric` answers for a character: whether it is alphabetic
/// or numeric in Unicode.
pub uninterp spec fn alphanumeric_char(c: char) -> bool;

/// `char::is_alphanumeric`. Its result is named `alphanumeric_char`; the one fact
/// stated beside it is that ASCII letters and digits are alphanumeric, as its
/// documentation shows.
#[verifier::external_body]
fn is_alphanumeric(c: char) -> (r: bool)
    ensures
        r == alphanumeric_char(c),
        is_ascii_digit(c) || ('a' <= c && c <= 'z') || ('A' <= c && c <= 'Z') ==> r,
{
    c.is_alphanumeric()
}

/// A character a shell takes literally inside a bare word.
pub open spec fn shell_plain(c: char) -> bool {
    alphanumeric_char(c) || c == '!' || c == '@' || c == '%' || c == '_' || c == '+' || c == '='
        || c == ':' || c == ',' || c == '.' || c == '/' || c == '-'
}

/// The text with each `'` written as `'\''`.
pub open spec fn quote_escaped(s: Seq<char>) -> Seq<char>
    decreases s.len(),
{
    if s.len() == 0 {
        s
    } else {
        quote_escaped(s.drop_last()) + if s.last() == '\'' {
            seq!['\'', '\\', '\'', '\'']
        } else {
            seq![s.last()]
        }
    }
}

/// How a path is quoted for a shell: `''` when empty; in single quotes, with each
/// `'` written as `'\''`.
pub open spec fn shell_quoted(s: Seq<char>) -> Seq<char> {
    if s.len() == 0 {
        seq!['\'', '\'']
    } else if forall|i: int| 0 <= i < s.len() ==> shell_plain(#[trigger] s[i]) {
        seq!['\''] + s + seq!['\'']
    } else {
        seq!['\''] + quote_escaped(s) + seq!['\'']
    }
}

/// Quotes a path for a shell (see `shell_quoted`).
pub fn shell_quote(s: &str) -> (r: String)
    ensures
        r@ == shell_quoted(s@),
{
    let v = to_chars(s);
    if v.len() == 0 {
        let mut e = String::new();
        push_char(&mut e, '\'');
        push_char(&mut e, '\'');
        assert(e@ =~= seq!['\'', '\'']);
        return e;
    }
    let mut plain = true;
    let mut i: usize = 0;
    while i < v.len()
        invariant
            i <= v@.len(),
            plain <==> forall|j: int| 0 <= j < i ==> shell_plain(#[trigger] v@[j]),
        decreases v.len() - i,
    {
        let c = v[i];
        let ok = is_alphanumeric(c) || c == '!' || c == '@' || c == '%' || c == '_' || c == '+'
            || c == '=' || c == ':' || c == ',' || c == '.' || c == '/' || c == '-';
        if !ok {
            plain = false;
        }
        i = i + 1;
    }
    let mut out = String::new();
    push_char(&mut out, '\'');
    let mut k: usize = 0;
    assert(out@ =~= seq!['\''] + quote_escaped(v@.subrange(0, 0)));
    assert(out@ =~= seq!['\''] + v@.subrange(0, 0));
    while k < v.len()
        invariant
            k <= v@.len(),
            v@ == s@,
            plain ==> out@ == seq!['\''] + v@.subrange(0, k as int),
            !plain ==> out@ == seq!['\''] + quote_escaped(v@.subrange(0, k as int)),
        decreases v.len() - k,
    {
        let c = v[k];
        assert(v@.subrange(0, k + 1).drop_last() =~= v@.subrange(0, k as int));
        if !plain && c == '\'' {
            push_char(&mut out, '\'');
            push_char(&mut out, '\\');
            push_char(&mut out, '\'');
            push_char(&mut out, '\'');
        } else {
            push_char(&mut out, c);
        }
        k = k + 1;
        proof {
            if plain {
                assert(out@ =~= seq!['\''] + v@.subrange(0, k as int));
            } else {
                assert(out@ =~= seq!['\''] + quote_escaped(v@.subrange(0, k as int)));
            }
        }
    }
    push_char(&mut out, '\'');
    assert(v@.subrange(0, k as int) =~= v@);
    proof {
        if plain {
            assert(out@ =~= seq!['\''] + s@ + seq!['\'']);
        } else {
            assert(out@ =~= seq!['\''] + quote_escaped(s@) + seq!['\'']);
        }
    }
    out
}

/// An optional count seen as an optional natural number.
pub open spec fn as_nat(o: Option<u64>) -> Option<nat> {
    match o {
        Some(v) => Some(v as nat),
        None => None,
    }
}

/// The bounds a size filter text sets, once trimmed: `+MIN-MAX` (a `+` before the
/// last `-`) sets both, `+MIN` the smallest size, `-MAX` or a bare size the largest;
/// a size that does not parse sets nothing.
pub open spec fn size_filter_of(s: Seq<char>) -> (Option<nat>, Option<nat>) {
    let t = trim(s);
    let p = first_index(t, '+');
    let d = last_index(t, '-');
    if p < t.len() && d > p {
        (
            parse_size_spec(t.subrange(p as int + 1, d)),
            parse_size_spec(t.subrange(d + 1, t.len() as int)),
        )
    } else if t.len() > 0 && t[0] == '+' {
        (parse_size_spec(t.subrange(1, t.len() as int)), None)
    } else if t.len() > 0 && t[0] == '-' {
        (None, parse_size_spec(t.subrange(1, t.len() as int)))
    } else {
        (None, parse_size_spec(t))
    }
}

/// The size, when the text parses as one.
fn size_or_none(t: &str) -> (r: Option<u64>)
    ensures
        as_nat(r) == parse_size_spec(t@),
{
    match parse_size(t) {
        Ok(v) => Some(v),
        Err(_) => None,
    }
}

/// Parses a size filter such as `+5M`, `-10M` or `+5M-10M` (see `size_filter_of`).
pub fn parse_size_filter(s: &str) -> (r: SizeFilter)
    ensures
        (as_nat(r.min), as_nat(r.max)) == size_filter_of(s@),
{
    let all = to_chars(s);
    let t = trim_chars(all.as_slice());
    let n = t.len();
    let p = find_char(t.as_slice(), '+');
    proof {
        lemma_first_index_bound(t@, '+');
        lemma_last_index(t@, '-');
    }
    match find_last_char(t.as_slice(), '-') {
        Some(d) => {
            if p < n && d > p {
                let lo = string_of_range(t.as_slice(), p + 1, d);
                let hi = string_of_range(t.as_slice(), d + 1, n);
                return SizeFilter { min: size_or_none(lo.as_str()), max: size_or_none(hi.as_str()) };
            }
        },
        None => {},
    }
    if n > 0 && t[0] == '+' {
        let rest = string_of_range(t.as_slice(), 1, n);
        SizeFilter { min: size_or_none(rest.as_str()), max: None }
    } else if n > 0 && t[0] == '-' {
        let rest = string_of_range(t.as_slice(), 1, n);
        SizeFilter { min: None, max: size_or_none(rest.as_str()) }
    } else {
        let whole = string_of(t.as_slice());
        SizeFilter { min: None, max: size_or_none(whole.as_str()) }
    }
}

/// When a rule's condition holds, in the numbers compared: a hash rule holds when it
/// asks for equal hashes and they match; a size rule when the source size is less
/// than, greater than or equal to the destination size, as the rule asks; a
/// modification-time or creation-time rule when both times are known and the
/// source's is less than (older), greater than (newer) or equal to the
/// destination's, as the rule asks.
pub proof fn law_rule_condition(rule: Rule, facts: FileComparison)
    ensures
        rule.attribute == Attribute::Hash ==> (rule_holds(rule, facts) <==> (rule.comparison
            == Comparison::Equal && facts.hashes_match)),
        rule.attribute == Attribute::Size ==> (rule_holds(rule, facts) <==> match rule.comparison {
            Comparison::Less => facts.src_size < facts.dest_size,
            Comparison::Greater => facts.src_size > facts.dest_size,
            Comparison::Equal => facts.src_size == facts.dest_size,
        }),
        rule.attribute == Attribute::Modified ==> (rule_holds(rule, facts) <==> (
        facts.src_modified is Some && facts.dest_modified is Some && match rule.comparison {
            Comparison::Less => facts.src_modified.unwrap() < facts.dest_modified.unwrap(),
            Comparison::Greater => facts.src_modified.unwrap() > facts.dest_modified.unwrap(),
            Comparison::Equal => facts.src_modified.unwrap() == facts.dest_modified.unwrap(),
        })),
        rule.attribute == Attribute::Created ==> (rule_holds(rule, facts) <==> (
        facts.src_created is Some && facts.dest_created is Some && match rule.comparison {
            Comparison::Less => facts.src_created.unwrap() < facts.dest_created.unwrap(),
            Comparison::Greater => facts.src_created.unwrap() > facts.dest_created.unwrap(),
            Comparison::Equal => facts.src_created.unwrap() == facts.dest_created.unwrap(),
        })),
{
}

/// The rule that decides is the first whose condition holds: no earlier rule holds,
/// and when none is found no rule holds at all.
pub proof fn law_first_rule_decides(rules: Seq<Rule>, facts: FileComparison)
    ensures
        match first_match(rules, facts) {
            Some(i) => 0 <= i < rules.len() && rule_holds(rules[i], facts) && forall|j: int|
                0 <= j < i ==> !rule_holds(#[trigger] rules[j], facts),
            None => forall|j: int| 0 <= j < rules.len() ==> !rule_holds(#[trigger] rules[j], facts),
        },
    decreases rules.len(),
{
    if rules.len() > 0 {
        let q = rules.drop_last();
        law_first_rule_decides(q, facts);
        match first_match(q, facts) {
            Some(i) => {
                assert forall|j: int| 0 <= j < i implies !rule_holds(#[trigger] rules[j], facts) by {
                    assert(rules[j] == q[j]);
                }
                assert(rules[i] == q[i]);
            },
            None => {
                assert forall|j: int| 0 <= j < rules.len() - 1 implies !rule_holds(
                    #[trigger] rules[j],
                    facts,
                ) by {
                    assert(rules[j] == q[j]);
                }
            },
        }
    }
}

} // verus!
