//! Tree view: how the entries found on the branches merge into one tree, which
//! entries are shown, and how each line is drawn.
use crate::error::{join2, join3};
use crate::pool::{lemma_insert_sorted, strictly_sorted};
use crate::text::{
    decimal, decimal_string, lemma_text_before_strict, lemma_text_before_trans, str_before, str_equal,
    text_before, to_chars,
};
use crate::utils::{one_decimal, scaled_size};
use vstd::prelude::*;

verus! {

/// How the tree view shows a size: in `G`, `M` or `K` (binary units) with one
/// decimal when it reaches them, else in bytes followed by `B`.
pub open spec fn tree_size_text(size: u64) -> Seq<char> {
    if size >= 0x4000_0000 {
        one_decimal(size as nat, 0x4000_0000) + "G"@
    } else if size >= 0x10_0000 {
        one_decimal(size as nat, 0x10_0000) + "M"@
    } else if size >= 0x400 {
        one_decimal(size as nat, 0x400) + "K"@
    } else {
        decimal(size as nat) + "B"@
    }
}

/// A size as the tree view shows it (see `tree_size_text`).
pub fn format_size(size: u64) -> (r: String)
    ensures
        r@ == tree_size_text(size),
{
    if size >= 0x4000_0000 {
        scaled_size(size, 0x4000_0000, "G")
    } else if size >= 0x10_0000 {
        scaled_size(size, 0x10_0000, "M")
    } else if size >= 0x400 {
        scaled_size(size, 0x400, "K")
    } else {
        let d = decimal_string(size);
        join2(d.as_str(), "B")
    }
}


/// A node of the tree view: a file or a folder, the branches it was found on (kept only
/// when all branches are shown), its size if it is a file, and a folder's children in
/// name order.
#[derive(Debug)]
pub struct TreeNode {
    /// The entry's name.
    pub name: String,
    /// Whether it was first met as a file.
    pub is_file: bool,
    /// The entries inside a folder, in increasing name order.
    pub children: Vec<TreeNode>,
    /// The size of the file as first met.
    pub size: Option<u64>,
    /// The branches the entry was met on, each once, in the order met.
    pub branches: Vec<String>,
}

/// The names of the nodes of one level.
pub open spec fn node_names(level: Seq<TreeNode>) -> Seq<Seq<char>> {
    level.map_values(|n: TreeNode| n.name@)
}

/// The texts of a list of branch paths.
pub open spec fn branch_texts(bs: Seq<String>) -> Seq<Seq<char>> {
    bs.map_values(|b: String| b@)
}

/// The branches a node lists after meeting its entry on `branch`: the branch is added
/// when all branches are shown and it is not listed yet.
pub open spec fn branches_after(listed: Seq<Seq<char>>, branch: Seq<char>, all_branches: bool) -> Seq<
    Seq<char>,
> {
    if all_branches && !listed.contains(branch) {
        listed.push(branch)
    } else {
        listed
    }
}

/// A node as it starts, when its entry is first met.
pub open spec fn fresh_node(
    n: TreeNode,
    name: Seq<char>,
    is_file: bool,
    size: Option<u64>,
    branch: Seq<char>,
    all_branches: bool,
) -> bool {
    &&& n.name@ == name
    &&& n.is_file == is_file
    &&& n.size == size
    &&& n.children@.len() == 0
    &&& branch_texts(n.branches@) == branches_after(Seq::empty(), branch, all_branches)
}

/// Whether the strings of `v` hold `text`.
fn lists_text(v: &Vec<String>, text: &str) -> (r: bool)
    ensures
        r == branch_texts(v@).contains(text@),
{
    let mut i: usize = 0;
    while i < v.len()
        invariant
            i <= v@.len(),
            forall|k: int| 0 <= k < i ==> v@[k]@ != text@,
        decreases v.len() - i,
    {
        if str_equal(v[i].as_str(), text) {
            assert(branch_texts(v@)[i as int] == text@);
            return true;
        }
        i = i + 1;
    }
    assert forall|k: int| 0 <= k < branch_texts(v@).len() implies branch_texts(v@)[k] != text@ by {
        assert(branch_texts(v@)[k] == v@[k]@);
    }
    false
}

/// Whether the nodes of a level are in strictly increasing name order, as
/// `merge_entry` needs them.
pub fn level_in_order(level: &[TreeNode]) -> (r: bool)
    ensures
        r == strictly_sorted(node_names(level@)),
{
    let ghost v = node_names(level@);
    let mut i: usize = 1;
    if level.len() == 0 {
        return true;
    }
    while i < level.len()
        invariant
            1 <= i <= level@.len(),
            v == node_names(level@),
            v.len() == level@.len(),
            forall|a: int, b: int| 0 <= a < b < i ==> text_before(v[a], v[b]),
        decreases level.len() - i,
    {
        if !str_before(level[i - 1].name.as_str(), level[i].name.as_str()) {
            assert(!text_before(v[i - 1], v[i as int]));
            return false;
        }
        assert forall|a: int, b: int| 0 <= a < b < i + 1 implies text_before(v[a], v[b]) by {
            if b == i && a < i - 1 {
                lemma_text_before_trans(v[a], v[i - 1], v[b]);
            }
        }
        i = i + 1;
    }
    true
}

/// Merges an entry met on `branch` into one level of the tree and returns the position
/// of its node (the node to descend into for a folder). A name already in the level
/// keeps its node, which lists the branch when all branches are shown; a new name gets
/// a fresh node at its place in name order.
pub fn merge_entry(
    level: &mut Vec<TreeNode>,
    name: &str,
    is_file: bool,
    size: Option<u64>,
    branch: &str,
    all_branches: bool,
) -> (r: usize)
    requires
        strictly_sorted(node_names(old(level)@)),
    ensures
        strictly_sorted(node_names(final(level)@)),
        r < final(level)@.len(),
        final(level)@[r as int].name@ == name@,
        node_names(old(level)@).contains(name@) ==> {
            &&& final(level)@.len() == old(level)@.len()
            &&& forall|k: int| 0 <= k < old(level)@.len() && k != r ==> final(level)@[k] == old(level)@[k]
            &&& final(level)@[r as int].is_file == old(level)@[r as int].is_file
            &&& final(level)@[r as int].size == old(level)@[r as int].size
            &&& final(level)@[r as int].children == old(level)@[r as int].children
            &&& branch_texts(final(level)@[r as int].branches@) == branches_after(
                branch_texts(old(level)@[r as int].branches@),
                branch@,
                all_branches,
            )
        },
        !node_names(old(level)@).contains(name@) ==> {
            &&& final(level)@ == old(level)@.insert(r as int, final(level)@[r as int])
            &&& fresh_node(final(level)@[r as int], name@, is_file, size, branch@, all_branches)
        },
{
    let ghost names = node_names(level@);
    let mut j: usize = 0;
    while j < level.len()
        invariant
            j <= level@.len(),
            level@ == old(level)@,
            names == node_names(level@),
            strictly_sorted(names),
            forall|k: int| 0 <= k < j ==> names[k] != name@,
        decreases level.len() - j,
    {
        if str_equal(level[j].name.as_str(), name) {
            let mut node = level.remove(j);
            proof {
                assert(names[j as int] == name@);
            }
            if all_branches && !lists_text(&node.branches, branch) {
                let ghost before = branch_texts(node.branches@);
                node.branches.push(String::from_str(branch));
                assert(branch_texts(node.branches@) =~= before.push(branch@));
            }
            level.insert(j, node);
            proof {
                assert(level@ =~= old(level)@.update(j as int, level@[j as int]));
                assert(node_names(level@) =~= names);
            }
            return j;
        }
        proof {
            assert(names[j as int] == level@[j as int].name@);
        }
        j = j + 1;
    }
    proof {
        assert forall|k: int| 0 <= k < names.len() implies names[k] != name@ by {}
    }
    let mut k: usize = 0;
    while k < level.len() && !str_before(name, level[k].name.as_str())
        invariant
            k <= level@.len(),
            level@ == old(level)@,
            names == node_names(level@),
            !names.contains(name@),
            forall|m: int| 0 <= m < k ==> text_before(names[m], name@),
        decreases level.len() - k,
    {
        proof {
            assert(names[k as int] == level@[k as int].name@);
            assert(names[k as int] != name@);
            lemma_text_before_strict(name@, names[k as int]);
        }
        k = k + 1;
    }
    let mut first: Vec<String> = Vec::new();
    if all_branches {
        first.push(String::from_str(branch));
    }
    proof {
        assert(branch_texts(first@) =~= branches_after(Seq::empty(), branch@, all_branches));
        if k < level@.len() {
            assert(names[k as int] == level@[k as int].name@);
        }
    }
    let node = TreeNode {
        name: String::from_str(name),
        is_file,
        children: Vec::new(),
        size,
        branches: first,
    };
    level.insert(k, node);
    proof {
        assert(node_names(level@) =~= names.insert(k as int, name@));
        lemma_insert_sorted(names, k as int, name@);
    }
    k
}

/// The branches of the nodes of a level, one after another.
pub open spec fn level_branches(level: Seq<TreeNode>) -> Seq<Seq<char>>
    decreases level.len(),
{
    if level.len() == 0 {
        Seq::empty()
    } else {
        level_branches(level.drop_last()) + branch_texts(level.last().branches@)
    }
}

/// The root of the tree view: the folder `.` over the top level, listing the branches
/// of the top-level nodes when all branches are shown.
pub fn tree_root(children: Vec<TreeNode>, all_branches: bool) -> (r: TreeNode)
    ensures
        r.name@ == "."@,
        !r.is_file,
        r.size is None,
        r.children@ == children@,
        branch_texts(r.branches@) == if all_branches {
            level_branches(children@)
        } else {
            Seq::empty()
        },
{
    let mut branches: Vec<String> = Vec::new();
    if all_branches {
        let mut i: usize = 0;
        while i < children.len()
            invariant
                i <= children@.len(),
                branch_texts(branches@) == level_branches(children@.subrange(0, i as int)),
            decreases children.len() - i,
        {
            let mut j: usize = 0;
            let ghost start = branch_texts(branches@);
            while j < children[i].branches.len()
                invariant
                    i < children@.len(),
                    j <= children@[i as int].branches@.len(),
                    branch_texts(branches@) == start + branch_texts(
                        children@[i as int].branches@.subrange(0, j as int),
                    ),
                decreases children@[i as int].branches@.len() - j,
            {
                let b = children[i].branches[j].clone();
                let ghost before = branch_texts(branches@);
                branches.push(b);
                proof {
                    assert(branch_texts(children@[i as int].branches@.subrange(0, j + 1)) =~= branch_texts(
                        children@[i as int].branches@.subrange(0, j as int),
                    ).push(children@[i as int].branches@[j as int]@));
                    assert(branch_texts(branches@) =~= before.push(b@));
                }
                j = j + 1;
            }
            proof {
                assert(children@[i as int].branches@.subrange(0, j as int) =~= children@[i as int].branches@);
                assert(children@.subrange(0, i + 1).drop_last() =~= children@.subrange(0, i as int));
            }
            i = i + 1;
        }
        assert(children@.subrange(0, i as int) =~= children@);
    } else {
        assert(branch_texts(branches@) =~= Seq::<Seq<char>>::empty());
    }
    TreeNode { name: String::from_str("."), is_file: false, children, size: None, branches }
}

/// How the tree view is drawn.
#[derive(Debug, Clone, Copy)]
pub struct TreeOptions {
    /// Show the branches of each entry.
    pub all_branches: bool,
    /// Deepest level read below the start, if limited.
    pub max_depth: Option<usize>,
    /// Show folders only.
    pub directories_only: bool,
    /// Show files only.
    pub files_only: bool,
    /// Show sizes readably.
    pub human_size: bool,
    /// Show hidden entries and warnings.
    pub verbose: bool,
    /// Report as JSON.
    pub json: bool,
}

/// What the tree view reports as JSON.
#[derive(Debug)]
pub struct TreeOutput {
    /// The pool path shown.
    pub path: String,
    /// The root of the tree.
    pub root: TreeNode,
}

/// Whether an entry is shown: a hidden entry (its name starts with `.`) only in verbose
/// mode, and only folders or only files when asked.
pub fn entry_shown(name: &str, is_file: bool, o: &TreeOptions) -> (r: bool)
    ensures
        r == ((o.verbose || !(name@.len() > 0 && name@[0] == '.')) && !(o.directories_only
            && is_file) && !(o.files_only && !is_file)),
{
    let v = to_chars(name);
    if v.len() > 0 && v[0] == '.' && !o.verbose {
        return false;
    }
    !(o.directories_only && is_file) && !(o.files_only && !is_file)
}

/// Whether a folder at `depth` below the start is read: always without a limit, else
/// up to the limit.
pub fn depth_allowed(o: &TreeOptions, depth: usize) -> (r: bool)
    ensures
        r == match o.max_depth {
            Some(m) => depth <= m,
            None => true,
        },
{
    match o.max_depth {
        Some(m) => depth <= m,
        None => true,
    }
}

/// One line of the tree drawing: the prefix, the connector, the name, then a file's
/// size (in bytes, or readable) or a folder's `/`, then the number of branches when
/// all branches are shown.
pub open spec fn tree_line_text(
    prefix: Seq<char>,
    is_last: bool,
    n: TreeNode,
    human: bool,
    all_branches: bool,
) -> Seq<char> {
    let connector = if is_last { "└── "@ } else { "├── "@ };
    let detail = if n.is_file {
        match n.size {
            Some(s) => if human {
                " ("@ + tree_size_text(s) + ")"@
            } else {
                " ("@ + decimal(s as nat) + " bytes)"@
            },
            None => Seq::empty(),
        }
    } else {
        "/"@
    };
    let count = if all_branches && n.branches@.len() > 0 {
        " ["@ + decimal(n.branches@.len()) + " branch(es)]"@
    } else {
        Seq::empty()
    };
    prefix + connector + n.name@ + detail + count
}

/// One line of the tree drawing (see `tree_line_text`).
pub fn tree_line(prefix: &str, is_last: bool, node: &TreeNode, human: bool, all_branches: bool) -> (r:
    String)
    ensures
        r@ == tree_line_text(prefix@, is_last, *node, human, all_branches),
{
    let connector = if is_last { "└── " } else { "├── " };
    let head = join3(prefix, connector, node.name.as_str());
    let detail = if node.is_file {
        match node.size {
            Some(s) => if human {
                let t = format_size(s);
                join3(" (", t.as_str(), ")")
            } else {
                let t = decimal_string(s);
                join3(" (", t.as_str(), " bytes)")
            },
            None => String::new(),
        }
    } else {
        String::from_str("/")
    };
    let count = if all_branches && node.branches.len() > 0 {
        let t = decimal_string(node.branches.len() as u64);
        join3(" [", t.as_str(), " branch(es)]")
    } else {
        String::new()
    };
    let line = join3(head.as_str(), detail.as_str(), count.as_str());
    assert(line@ =~= tree_line_text(prefix@, is_last, *node, human, all_branches));
    line
}

/// The prefix of the lines below a node: the node's prefix, then blank space under a
/// last node or a bar under the others.
pub fn child_prefix(prefix: &str, is_last: bool) -> (r: String)
    ensures
        r@ == prefix@ + if is_last { "    "@ } else { "│   "@ },
{
    if is_last {
        join2(prefix, "    ")
    } else {
        join2(prefix, "│   ")
    }
}

} // verus!
