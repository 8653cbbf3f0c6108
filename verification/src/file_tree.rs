//! The directory scanner: given an in-memory picture of a directory tree and
//! a set of allowed file extensions, it keeps exactly the files whose
//! extension is in the set and prunes every directory branch with no
//! matching descendant.

use vstd::prelude::*;
use crate::text::{extension_of, strs_view, contains_str, file_extension};

verus! {

#[derive(Debug, Clone, PartialEq)]
pub enum NodeType {
    File,
    Directory,
}

/// One directory or file of a directory tree.
///
/// The same shape serves two purposes: the raw picture of a directory tree
/// that a caller hands to [`scan_directory`] (every entry present, directories
/// with all their entries as children), and the filtered tree that the scan
/// returns.
#[derive(Debug, PartialEq)]
pub struct FileNode {
    pub name: String,
    pub path: String,
    pub node_type: NodeType,
    pub children: Vec<FileNode>,
    pub is_expanded: bool,
}

/// The mathematical shape of a [`FileNode`].
#[verifier::ext_equal]
pub struct FileNodeV {
    pub name: Seq<char>,
    pub path: Seq<char>,
    pub is_dir: bool,
    pub children: Seq<FileNodeV>,
    pub is_expanded: bool,
}

pub open spec fn file_node_view(n: FileNode) -> FileNodeV
    decreases n, 1nat,
    via file_node_view_decreases
{
    FileNodeV {
        name: n.name@,
        path: n.path@,
        is_dir: n.node_type is Directory,
        children: file_nodes_view(n.children@),
        is_expanded: n.is_expanded,
    }
}

/// The views of a sequence of nodes.
pub open spec fn file_nodes_view(ns: Seq<FileNode>) -> Seq<FileNodeV>
    decreases ns, 0nat,
{
    if ns.len() == 0 {
        Seq::empty()
    } else {
        file_nodes_view(ns.drop_last()).push(file_node_view(ns.last()))
    }
}

#[via_fn]
proof fn file_node_view_decreases(n: FileNode) {
    assert(decreases_to!(n => n.children));
    assert(decreases_to!(n.children => n.children@));
}

impl View for FileNode {
    type V = FileNodeV;

    open spec fn view(&self) -> FileNodeV {
        file_node_view(*self)
    }
}

/// Viewing a sequence of nodes views each node in place.
pub proof fn lemma_file_nodes_view(ns: Seq<FileNode>)
    ensures
        file_nodes_view(ns).len() == ns.len(),
        forall|i: int| 0 <= i < ns.len() ==> file_nodes_view(ns)[i] == file_node_view(ns[i]),
    decreases ns.len(),
{
    if ns.len() > 0 {
        lemma_file_nodes_view(ns.drop_last());
        assert(forall|i: int| 0 <= i < ns.len() - 1 ==> ns.drop_last()[i] == ns[i]);
    }
}

impl FileNode {
    /// A leaf node for a plain file.
    pub fn new_file(name: String, path: String) -> (r: FileNode)
        ensures
            r@.name == name@,
            r@.path == path@,
            !r@.is_dir,
            r@.children == Seq::<FileNodeV>::empty(),
            !r@.is_expanded,
    {
        let r = FileNode {
            name,
            path,
            node_type: NodeType::File,
            children: Vec::new(),
            is_expanded: false,
        };
        proof {
            assert(r@.children =~= Seq::<FileNodeV>::empty());
        }
        r
    }

    /// A directory node with the given children.
    pub fn new_directory(name: String, path: String, children: Vec<FileNode>) -> (r: FileNode)
        ensures
            r@.name == name@,
            r@.path == path@,
            r@.is_dir,
            r@.children == file_nodes_view(children@),
            !r@.is_expanded,
    {
        let r = FileNode {
            name,
            path,
            node_type: NodeType::Directory,
            children,
            is_expanded: false,
        };
        proof {
            assert(r@.children =~= file_nodes_view(r.children@));
        }
        r
    }
}

/// Whether a file name passes the extension filter.  The comparison is exact,
/// character for character: case is significant.
pub open spec fn matches_filter(name: Seq<char>, exts: Seq<Seq<char>>) -> bool {
    extension_of(name) matches Some(e) && exts.contains(e)
}

/// The node a kept file contributes to the scan result.
pub open spec fn file_leaf(c: FileNodeV) -> FileNodeV {
    FileNodeV {
        name: c.name,
        path: c.path,
        is_dir: false,
        children: Seq::empty(),
        is_expanded: false,
    }
}

/// The children the scan keeps out of the raw child list `cs`: matching
/// files, and directories whose own scan kept something.
pub open spec fn spec_scan_children(cs: Seq<FileNodeV>, exts: Seq<Seq<char>>) -> Seq<FileNodeV>
    decreases cs, 0nat,
{
    if cs.len() == 0 {
        Seq::empty()
    } else {
        let prev = spec_scan_children(cs.drop_last(), exts);
        let c = cs.last();
        if c.is_dir {
            match spec_scan(c, exts, false) {
                Some(m) => prev.push(m),
                None => prev,
            }
        } else if matches_filter(c.name, exts) {
            prev.push(file_leaf(c))
        } else {
            prev
        }
    }
}

/// The scan of one directory `n`: `None` when nothing beneath it matches,
/// otherwise a directory node holding the kept children.  Only a root node
/// is marked expanded, and only when the caller asks for it.
pub open spec fn spec_scan(n: FileNodeV, exts: Seq<Seq<char>>, expand_root: bool) -> Option<
    FileNodeV,
>
    decreases n, 1nat,
{
    let kids = spec_scan_children(n.children, exts);
    if kids.len() == 0 {
        None
    } else {
        Some(
            FileNodeV {
                name: n.name,
                path: n.path,
                is_dir: true,
                children: kids,
                is_expanded: expand_root,
            },
        )
    }
}

/// Whether some file beneath `n` (among its proper descendants) passes
/// the filter.
pub open spec fn has_matching_file(n: FileNodeV, exts: Seq<Seq<char>>) -> bool
    decreases n, 1nat,
{
    children_have_match(n.children, exts)
}

pub open spec fn children_have_match(cs: Seq<FileNodeV>, exts: Seq<Seq<char>>) -> bool
    decreases cs, 0nat,
{
    if cs.len() == 0 {
        false
    } else {
        children_have_match(cs.drop_last(), exts) || {
            let c = cs.last();
            if c.is_dir {
                has_matching_file(c, exts)
            } else {
                matches_filter(c.name, exts)
            }
        }
    }
}

/// Shape of a scanned subtree: every directory keeps at least one child,
/// every file passes the filter, and no node below the root is expanded.
pub open spec fn scan_result_wf(n: FileNodeV, exts: Seq<Seq<char>>) -> bool
    decreases n, 1nat,
{
    if n.is_dir {
        n.children.len() > 0 && scanned_children_wf(n.children, exts)
    } else {
        matches_filter(n.name, exts) && n.children.len() == 0
    }
}

pub open spec fn scanned_children_wf(cs: Seq<FileNodeV>, exts: Seq<Seq<char>>) -> bool
    decreases cs, 0nat,
{
    if cs.len() == 0 {
        true
    } else {
        scanned_children_wf(cs.drop_last(), exts) && scan_result_wf(cs.last(), exts)
            && !cs.last().is_expanded
    }
}

proof fn lemma_scan_children_match(cs: Seq<FileNodeV>, exts: Seq<Seq<char>>)
    ensures
        spec_scan_children(cs, exts).len() == 0 <==> !children_have_match(cs, exts),
    decreases cs, 2nat,
{
    if cs.len() > 0 {
        lemma_scan_children_match(cs.drop_last(), exts);
        let c = cs.last();
        if c.is_dir {
            lemma_scan_none_iff_no_match(c, exts, false);
        }
    }
}

/// The pruning law: a scan returns `None` exactly when no file beneath the
/// root passes the extension filter.
pub proof fn lemma_scan_none_iff_no_match(n: FileNodeV, exts: Seq<Seq<char>>, expand_root: bool)
    ensures
        spec_scan(n, exts, expand_root) is None <==> !has_matching_file(n, exts),
    decreases n, 3nat,
{
    lemma_scan_children_match(n.children, exts);
}

proof fn lemma_scan_children_wf(cs: Seq<FileNodeV>, exts: Seq<Seq<char>>)
    ensures
        scanned_children_wf(spec_scan_children(cs, exts), exts),
    decreases cs, 2nat,
{
    if cs.len() > 0 {
        let rest = cs.drop_last();
        let c = cs.last();
        let prev = spec_scan_children(rest, exts);
        lemma_scan_children_wf(rest, exts);
        if c.is_dir {
            lemma_scan_wf(c, exts, false);
            match spec_scan(c, exts, false) {
                Some(m) => {
                    assert(prev.push(m).drop_last() =~= prev);
                },
                None => {},
            }
        } else if matches_filter(c.name, exts) {
            assert(prev.push(file_leaf(c)).drop_last() =~= prev);
            assert(scan_result_wf(file_leaf(c), exts));
        }
    }
}

/// Every tree a scan keeps is well-formed: no empty directory survives, and
/// every kept file passes the filter.
pub proof fn lemma_scan_wf(n: FileNodeV, exts: Seq<Seq<char>>, expand_root: bool)
    ensures
        spec_scan(n, exts, expand_root) matches Some(m) ==> scan_result_wf(m, exts)
            && m.is_expanded == expand_root,
    decreases n, 3nat,
{
    lemma_scan_children_wf(n.children, exts);
}

/// Scans the directory tree `dir`, keeping files whose extension is in
/// `allowed_extensions` and pruning branches with no matching descendant.
/// The root of the result is marked expanded only when `expand_root` is set.
pub fn scan_directory_with_expansion(
    dir: &FileNode,
    allowed_extensions: &Vec<String>,
    expand_root: bool,
) -> (r: Option<FileNode>)
    ensures
        match r {
            Some(n) => spec_scan(dir@, strs_view(allowed_extensions@), expand_root) == Some(n@),
            None => spec_scan(dir@, strs_view(allowed_extensions@), expand_root) is None,
        },
    decreases dir,
{
    let ghost exts = strs_view(allowed_extensions@);
    let mut kept: Vec<FileNode> = Vec::new();
    let n = dir.children.len();
    let mut i: usize = 0;
    while i < n
        invariant
            0 <= i <= n,
            n == dir.children@.len(),
            exts == strs_view(allowed_extensions@),
            file_nodes_view(kept@) =~= spec_scan_children(dir@.children.take(i as int), exts),
        decreases n - i,
    {
        let ghost prefix = dir@.children.take(i as int);
        let ghost next_prefix = dir@.children.take(i as int + 1);
        proof {
            lemma_file_nodes_view(dir.children@);
            assert(next_prefix.drop_last() =~= prefix);
            assert(next_prefix.last() == dir@.children[i as int]);
            assert(dir@.children[i as int] == file_node_view(dir.children@[i as int]));
        }
        let ghost pre = kept@;
        let child = &dir.children[i];
        match child.node_type {
            NodeType::File => {
                if file_matches_filter(&child.name, allowed_extensions) {
                    let leaf = FileNode::new_file(child.name.clone(), child.path.clone());
                    proof {
                        assert(leaf@ =~= file_leaf(child@));
                    }
                    kept.push(leaf);
                    proof {
                        assert(kept@.drop_last() =~= pre);
                        assert(file_nodes_view(kept@) =~= file_nodes_view(pre).push(
                            file_leaf(child@),
                        ));
                    }
                }
            },
            NodeType::Directory => {
                proof {
                    assert(decreases_to!(dir => dir.children@[i as int]));
                }
                match scan_directory_with_expansion(child, allowed_extensions, false) {
                    Some(sub) => {
                        kept.push(sub);
                        proof {
                            assert(kept@.drop_last() =~= pre);
                            assert(file_nodes_view(kept@) =~= file_nodes_view(pre).push(sub@));
                        }
                    },
                    None => {},
                }
            },
        }
        proof {
            assert(file_nodes_view(kept@) =~= spec_scan_children(next_prefix, exts));
        }
        i = i + 1;
    }
    proof {
        lemma_file_nodes_view(dir.children@);
        assert(dir@.children.take(n as int) =~= dir@.children);
    }
    if kept.len() > 0 {
        let mut node = FileNode::new_directory(dir.name.clone(), dir.path.clone(), kept);
        node.is_expanded = expand_root;
        proof {
            assert(node@ =~= spec_scan(dir@, exts, expand_root)->Some_0);
        }
        Some(node)
    } else {
        None
    }
}

/// Scans a user-visible root directory; the result's root starts expanded.
///
/// Returns `None` exactly when no file beneath `dir` passes the filter, and
/// otherwise a tree whose every directory is non-empty and whose every file
/// matches — the scan never hands back an empty branch.
pub fn scan_directory(dir: &FileNode, allowed_extensions: &Vec<String>) -> (r: Option<FileNode>)
    ensures
        match r {
            Some(n) => spec_scan(dir@, strs_view(allowed_extensions@), true) == Some(n@),
            None => spec_scan(dir@, strs_view(allowed_extensions@), true) is None,
        },
        r is None <==> !has_matching_file(dir@, strs_view(allowed_extensions@)),
        r matches Some(n) ==> scan_result_wf(n@, strs_view(allowed_extensions@)),
{
    proof {
        lemma_scan_none_iff_no_match(dir@, strs_view(allowed_extensions@), true);
        lemma_scan_wf(dir@, strs_view(allowed_extensions@), true);
    }
    scan_directory_with_expansion(dir, allowed_extensions, true)
}

/// Whether `name` carries an extension listed in `allowed_extensions`.
pub fn file_matches_filter(name: &String, allowed_extensions: &Vec<String>) -> (r: bool)
    ensures
        r == matches_filter(name@, strs_view(allowed_extensions@)),
{
    match file_extension(name.as_str()) {
        Some(e) => contains_str(allowed_extensions, &e),
        None => false,
    }
}

/// The tree `n` with every node's expansion flag set to whether its path
/// is listed in `dirs`.
pub open spec fn spec_restore(n: FileNodeV, dirs: Seq<Seq<char>>) -> FileNodeV
    decreases n, 1nat,
{
    FileNodeV {
        name: n.name,
        path: n.path,
        is_dir: n.is_dir,
        children: spec_restore_all(n.children, dirs),
        is_expanded: dirs.contains(n.path),
    }
}

pub open spec fn spec_restore_all(cs: Seq<FileNodeV>, dirs: Seq<Seq<char>>) -> Seq<FileNodeV>
    decreases cs, 0nat,
{
    if cs.len() == 0 {
        Seq::empty()
    } else {
        spec_restore_all(cs.drop_last(), dirs).push(spec_restore(cs.last(), dirs))
    }
}

pub proof fn lemma_spec_restore_all(cs: Seq<FileNodeV>, dirs: Seq<Seq<char>>)
    ensures
        spec_restore_all(cs, dirs).len() == cs.len(),
        forall|i: int|
            0 <= i < cs.len() ==> spec_restore_all(cs, dirs)[i] == spec_restore(cs[i], dirs),
    decreases cs.len(),
{
    if cs.len() > 0 {
        lemma_spec_restore_all(cs.drop_last(), dirs);
        assert(forall|i: int| 0 <= i < cs.len() - 1 ==> cs.drop_last()[i] == cs[i]);
    }
}

/// Marks every node of the tree expanded exactly when its path is one of
/// `expanded_dirs`.
pub fn restore_expansion_state(node: &mut FileNode, expanded_dirs: &Vec<String>)
    ensures
        final(node)@ == spec_restore(old(node)@, strs_view(expanded_dirs@)),
    decreases *old(node),
{
    let ghost orig: FileNode = *node;
    let ghost dirs = strs_view(expanded_dirs@);
    node.is_expanded = contains_str(expanded_dirs, &node.path);
    let n = node.children.len();
    let mut i: usize = 0;
    while i < n
        invariant
            0 <= i <= n,
            node.children@.len() == n,
            n == orig.children@.len(),
            orig == *old(node),
            dirs == strs_view(expanded_dirs@),
            node.name == orig.name,
            node.path == orig.path,
            node.node_type == orig.node_type,
            node.is_expanded == dirs.contains(orig.path@),
            forall|j: int|
                0 <= j < i ==> file_node_view(#[trigger] node.children@[j]) == spec_restore(
                    file_node_view(orig.children@[j]),
                    dirs,
                ),
            forall|j: int| i <= j < n ==> node.children@[j] == orig.children@[j],
        decreases n - i,
    {
        let mut c = node.children.remove(i);
        proof {
            assert(c == orig.children@[i as int]);
            assert(decreases_to!(orig => orig.children));
            assert(decreases_to!(orig.children => orig.children@));
            assert(decreases_to!(orig.children@ => orig.children@[i as int]));
        }
        restore_expansion_state(&mut c, expanded_dirs);
        node.children.insert(i, c);
        i = i + 1;
    }
    proof {
        lemma_file_nodes_view(node.children@);
        lemma_file_nodes_view(orig.children@);
        lemma_spec_restore_all(file_nodes_view(orig.children@), dirs);
        assert(file_nodes_view(node.children@) =~= spec_restore_all(
            file_nodes_view(orig.children@),
            dirs,
        ));
        assert(node@ =~= spec_restore(orig@, dirs));
    }
}

/// The paths of all files in the tree, in depth-first order.  A directory
/// contributes its files; a file contributes its own path.
pub open spec fn spec_collect_files(n: FileNodeV) -> Seq<Seq<char>>
    decreases n, 1nat,
{
    if !n.is_dir {
        seq![n.path]
    } else {
        spec_collect_children(n.children)
    }
}

pub open spec fn spec_collect_children(cs: Seq<FileNodeV>) -> Seq<Seq<char>>
    decreases cs, 0nat,
{
    if cs.len() == 0 {
        Seq::empty()
    } else {
        spec_collect_children(cs.drop_last()) + spec_collect_files(cs.last())
    }
}

/// Appends the path of every file under `node` to `files`, depth first.
pub fn collect_files_recursively(node: &FileNode, files: &mut Vec<String>)
    ensures
        strs_view(final(files)@) == strs_view(old(files)@) + spec_collect_files(node@),
    decreases node,
{
    let ghost fs0 = files@;
    match node.node_type {
        NodeType::File => {
            files.push(node.path.clone());
            proof {
                assert(strs_view(files@) =~= strs_view(fs0) + spec_collect_files(node@));
            }
        },
        NodeType::Directory => {
            let n = node.children.len();
            let mut i: usize = 0;
            while i < n
                invariant
                    0 <= i <= n,
                    n == node.children@.len(),
                    strs_view(files@) =~= strs_view(fs0) + spec_collect_children(
                        file_nodes_view(node.children@).take(i as int),
                    ),
                decreases n - i,
            {
                let ghost kids = file_nodes_view(node.children@);
                let ghost pre = files@;
                proof {
                    lemma_file_nodes_view(node.children@);
                    assert(decreases_to!(node => node.children@[i as int]));
                }
                collect_files_recursively(&node.children[i], files);
                proof {
                    assert(kids.take(i as int + 1).drop_last() =~= kids.take(i as int));
                    assert(kids.take(i as int + 1).last() == file_node_view(
                        node.children@[i as int],
                    ));
                    assert(strs_view(files@) =~= strs_view(fs0) + spec_collect_children(
                        kids.take(i as int + 1),
                    ));
                }
                i = i + 1;
            }
            proof {
                lemma_file_nodes_view(node.children@);
                assert(file_nodes_view(node.children@).take(n as int) =~= file_nodes_view(
                    node.children@,
                ));
                assert(node@.children == file_nodes_view(node.children@));
                assert(strs_view(files@) =~= strs_view(fs0) + spec_collect_files(node@));
            }
        },
    }
}

/// The first node of the tree, in depth-first order, whose path is `p`.
pub open spec fn spec_find(n: FileNodeV, p: Seq<char>) -> Option<FileNodeV>
    decreases n, 0nat,
{
    if n.path == p {
        Some(n)
    } else {
        spec_find_in(n.children, p)
    }
}

pub open spec fn spec_find_in(cs: Seq<FileNodeV>, p: Seq<char>) -> Option<FileNodeV>
    decreases cs, 1nat,
{
    if cs.len() == 0 {
        None
    } else if spec_find(cs.first(), p) is Some {
        spec_find(cs.first(), p)
    } else {
        spec_find_in(cs.drop_first(), p)
    }
}

/// Finds the first node (depth first) whose path equals `path`.
pub fn find_node_by_path<'a>(node: &'a FileNode, path: &String) -> (r: Option<&'a FileNode>)
    ensures
        match r {
            Some(m) => spec_find(node@, path@) == Some(m@),
            None => spec_find(node@, path@) is None,
        },
    decreases node,
{
    if node.path == *path {
        return Some(node);
    }
    let n = node.children.len();
    let ghost kids = file_nodes_view(node.children@);
    proof {
        lemma_file_nodes_view(node.children@);
        assert(kids.skip(0) =~= kids);
    }
    let mut i: usize = 0;
    while i < n
        invariant
            0 <= i <= n,
            n == node.children@.len(),
            kids == file_nodes_view(node.children@),
            kids.len() == n,
            node.path@ != path@,
            spec_find_in(kids, path@) == spec_find_in(kids.skip(i as int), path@),
        decreases n - i,
    {
        proof {
            lemma_file_nodes_view(node.children@);
            assert(decreases_to!(node => node.children@[i as int]));
            assert(kids.skip(i as int).first() == file_node_view(node.children@[i as int]));
            assert(kids.skip(i as int).drop_first() =~= kids.skip(i as int + 1));
        }
        match find_node_by_path(&node.children[i], path) {
            Some(found) => {
                return Some(found);
            },
            None => {},
        }
        i = i + 1;
    }
    proof {
        assert(kids.skip(n as int) =~= Seq::<FileNodeV>::empty());
        assert(node@.children == kids);
    }
    None
}

/// The list without any occurrence of `t`.
pub open spec fn spec_remove_str(ss: Seq<String>, t: Seq<char>) -> Seq<String>
    decreases ss.len(),
{
    if ss.len() == 0 {
        Seq::empty()
    } else {
        let prev = spec_remove_str(ss.drop_last(), t);
        if ss.last()@ == t {
            prev
        } else {
            prev.push(ss.last())
        }
    }
}

/// Toggles an extension in the selected set: one that is listed is removed
/// everywhere, one that is not is appended.
pub fn toggle_extension(selected: &mut Vec<String>, ext: &String)
    ensures
        strs_view(old(selected)@).contains(ext@) ==> final(selected)@ == spec_remove_str(
            old(selected)@,
            ext@,
        ),
        !strs_view(old(selected)@).contains(ext@) ==> final(selected)@ == old(selected)@.push(
            *ext,
        ),
{
    let ghost orig = selected@;
    if contains_str(selected, ext) {
        let mut kept: Vec<String> = Vec::new();
        let n = selected.len();
        let mut i: usize = 0;
        proof {
            assert(kept@ =~= spec_remove_str(orig.take(0), ext@));
        }
        while i < n
            invariant
                0 <= i <= n,
                n == selected@.len(),
                selected@ == orig,
                kept@ == spec_remove_str(orig.take(i as int), ext@),
            decreases n - i,
        {
            proof {
                assert(orig.take(i as int + 1).drop_last() =~= orig.take(i as int));
                assert(orig.take(i as int + 1).last() == orig[i as int]);
            }
            if !(selected[i] == *ext) {
                kept.push(selected[i].clone());
            }
            i = i + 1;
        }
        proof {
            assert(orig.take(n as int) =~= orig);
        }
        *selected = kept;
    } else {
        selected.push(ext.clone());
    }
}

} // verus!


