//! The workspace scanner: a recursive walk over a directory snapshot that
//! keeps markdown files, prunes every directory without markdown anywhere
//! beneath it, and sorts each folder's children folders-first and then
//! ascending by case-insensitive name.

use vstd::prelude::*;
use crate::model::{
    dir_entries_view, dir_entry_view, entry_info_view, lemma_dir_entries_view_props,
    lemma_nodes_view_props, md_name, md_name_exec, node_view, nodes_view, DirEntry, DirEntryV,
    EntryInfo, EntryInfoV, TreeNode, TreeNodeV,
};
use crate::order::{le_node, le_node_exec, lemma_le_node_total, lemma_le_node_trans, sorted_nodes};
use crate::paths::{base_name, base_name_exec, join_path, join_path_exec};

verus! {

/// The only failure `scan_workspace` surfaces: the scanned root is not an
/// existing directory. Everything deeper degrades to an empty branch instead
/// of failing the call.
#[derive(Debug, Clone, Copy, PartialEq, Eq)]
pub enum ScanError {
    NotADirectory,
}

impl ScanError {
    /// The message shown to the caller.
    pub fn message(&self) -> (r: String)
        ensures
            r@ == "root is not a directory"@,
    {
        "root is not a directory".to_owned()
    }
}

/// `x` placed into the sorted sequence `s`, before the first element it
/// precedes or equals.
pub open spec fn insert_sorted(x: TreeNodeV, s: Seq<TreeNodeV>) -> Seq<TreeNodeV>
    decreases s.len(),
{
    if s.len() == 0 {
        seq![x]
    } else if le_node(x, s[0]) {
        seq![x] + s
    } else {
        seq![s[0]] + insert_sorted(x, s.drop_first())
    }
}

/// `s` rearranged into sibling order, by inserting one element after the
/// other.
pub open spec fn sort_nodes(s: Seq<TreeNodeV>) -> Seq<TreeNodeV>
    decreases s.len(),
{
    if s.len() == 0 {
        Seq::empty()
    } else {
        insert_sorted(s.last(), sort_nodes(s.drop_last()))
    }
}

/// An optional node as a sequence of zero or one elements.
pub open spec fn opt_node_seq(o: Option<TreeNodeV>) -> Seq<TreeNodeV> {
    match o {
        Some(n) => seq![n],
        None => Seq::empty(),
    }
}

/// What a single directory entry contributes to its parent's children:
/// a readable subdirectory becomes a folder node unless its own filtered
/// children are empty (then it is pruned); an unreadable subdirectory is
/// treated as empty and therefore pruned; a regular file is kept only with a
/// markdown name; anything else — and any entry whose type is unknown — is
/// skipped.
pub open spec fn scan_entry(dir: Seq<char>, e: DirEntryV) -> Option<TreeNodeV>
    decreases e,
{
    match e.info {
        EntryInfoV::Dir(entries) => {
            let children = sort_nodes(collect_nodes(join_path(dir, e.name), entries));
            if children.len() > 0 {
                Some(
                    TreeNodeV::Folder {
                        name: e.name,
                        path: join_path(dir, e.name),
                        children,
                    },
                )
            } else {
                None
            }
        },
        EntryInfoV::File => if md_name(e.name) {
            Some(TreeNodeV::File { name: e.name, path: join_path(dir, e.name) })
        } else {
            None
        },
        EntryInfoV::DeniedDir => None,
        EntryInfoV::Special => None,
        EntryInfoV::Unknown => None,
    }
}

/// The kept children of a directory, in entry order, before sorting.
pub open spec fn collect_nodes(dir: Seq<char>, es: Seq<DirEntryV>) -> Seq<TreeNodeV>
    decreases es,
{
    if es.len() == 0 {
        Seq::empty()
    } else {
        opt_node_seq(scan_entry(dir, es[0])) + collect_nodes(dir, es.drop_first())
    }
}

/// The filtered, pruned and sorted children of the directory at `dir` whose
/// direct entries are `es`.
pub open spec fn scan_entries(dir: Seq<char>, es: Seq<DirEntryV>) -> Seq<TreeNodeV> {
    sort_nodes(collect_nodes(dir, es))
}

/// What scanning a workspace returns. The root must be a directory; a root
/// directory that exists but cannot be listed scans as a folder with no
/// children. The root node keeps the path as given and is named by the
/// path's base name, falling back to the whole path.
pub open spec fn scan_root(root: Seq<char>, info: EntryInfoV) -> Result<TreeNodeV, ScanError> {
    match info {
        EntryInfoV::Dir(es) => Ok(
            TreeNodeV::Folder {
                name: base_name(root),
                path: root,
                children: scan_entries(root, es),
            },
        ),
        EntryInfoV::DeniedDir => Ok(
            TreeNodeV::Folder { name: base_name(root), path: root, children: Seq::empty() },
        ),
        _ => Err(ScanError::NotADirectory),
    }
}

/// Spec-level view of a scan result.
pub open spec fn res_view(r: Result<TreeNode, ScanError>) -> Result<TreeNodeV, ScanError> {
    match r {
        Ok(t) => Ok(node_view(t)),
        Err(e) => Err(e),
    }
}

/// A well-formed node: a file is named like a markdown file; a folder has at
/// least one child and well-formed children in sibling order.
pub open spec fn node_ok(t: TreeNodeV) -> bool
    decreases t,
{
    match t {
        TreeNodeV::File { name, .. } => md_name(name),
        TreeNodeV::Folder { children, .. } => children.len() > 0 && sorted_nodes(children)
            && all_nodes_ok(children),
    }
}

/// Every node of the sequence is well formed.
pub open spec fn all_nodes_ok(s: Seq<TreeNodeV>) -> bool
    decreases s,
{
    if s.len() == 0 {
        true
    } else {
        node_ok(s[0]) && all_nodes_ok(s.drop_first())
    }
}

/// A well-formed child sequence: in sibling order, every node well formed.
pub open spec fn nodes_ok(s: Seq<TreeNodeV>) -> bool {
    sorted_nodes(s) && all_nodes_ok(s)
}

/// `all_nodes_ok` is the same as well-formedness at every index.
pub proof fn lemma_all_nodes_ok_index(s: Seq<TreeNodeV>)
    ensures
        all_nodes_ok(s) <==> (forall|i: int| 0 <= i < s.len() ==> node_ok(s[i])),
    decreases s,
{
    if s.len() == 0 {
    } else {
        let d = s.drop_first();
        lemma_all_nodes_ok_index(d);
        assert(forall|j: int| 0 <= j < d.len() ==> d[j] == s[j + 1]);
        if all_nodes_ok(s) {
            assert forall|i: int| 0 <= i < s.len() implies node_ok(s[i]) by {
                if i > 0 {
                    assert(d[i - 1] == s[i]);
                }
            }
        }
        if forall|i: int| 0 <= i < s.len() ==> node_ok(s[i]) {
            assert forall|j: int| 0 <= j < d.len() implies node_ok(d[j]) by {
                assert(d[j] == s[j + 1]);
            }
            assert(all_nodes_ok(d));
            assert(node_ok(s[0]));
        }
    }
}

/// Inserting adds exactly one element.
proof fn lemma_insert_sorted_len(x: TreeNodeV, s: Seq<TreeNodeV>)
    ensures
        insert_sorted(x, s).len() == s.len() + 1,
    decreases s.len(),
{
    if s.len() == 0 {
    } else if le_node(x, s[0]) {
    } else {
        lemma_insert_sorted_len(x, s.drop_first());
    }
}

/// Every element of the insertion result is bounded below by anything that
/// is below both the inserted element and the sequence.
proof fn lemma_insert_sorted_lb(x: TreeNodeV, s: Seq<TreeNodeV>, b: TreeNodeV)
    requires
        le_node(b, x),
        forall|i: int| 0 <= i < s.len() ==> le_node(b, s[i]),
    ensures
        forall|i: int|
            0 <= i < insert_sorted(x, s).len() ==> le_node(b, insert_sorted(x, s)[i]),
    decreases s.len(),
{
    if s.len() == 0 {
    } else if le_node(x, s[0]) {
    } else {
        let d = s.drop_first();
        assert(forall|i: int| 0 <= i < d.len() ==> d[i] == s[i + 1]);
        lemma_insert_sorted_lb(x, d, b);
        assert forall|i: int|
            0 <= i < insert_sorted(x, s).len() implies le_node(b, insert_sorted(x, s)[i]) by {
            if i > 0 {
                assert(insert_sorted(x, s)[i] == insert_sorted(x, d)[i - 1]);
            }
        }
    }
}

/// Inserting into a sequence in sibling order keeps it in sibling order.
proof fn lemma_insert_sorted_sorted(x: TreeNodeV, s: Seq<TreeNodeV>)
    requires
        sorted_nodes(s),
    ensures
        sorted_nodes(insert_sorted(x, s)),
    decreases s.len(),
{
    if s.len() == 0 {
    } else if le_node(x, s[0]) {
        let r = seq![x] + s;
        assert forall|i: int, j: int| 0 <= i < j < r.len() implies le_node(r[i], r[j]) by {
            if i == 0 {
                if j > 1 {
                    lemma_le_node_trans(x, s[0], s[j - 1]);
                }
            } else {
                assert(r[i] == s[i - 1] && r[j] == s[j - 1]);
            }
        }
    } else {
        lemma_le_node_total(x, s[0]);
        let d = s.drop_first();
        assert(forall|i: int| 0 <= i < d.len() ==> d[i] == s[i + 1]);
        lemma_insert_sorted_sorted(x, d);
        lemma_insert_sorted_lb(x, d, s[0]);
        lemma_insert_sorted_len(x, d);
        let r = seq![s[0]] + insert_sorted(x, d);
        assert forall|i: int, j: int| 0 <= i < j < r.len() implies le_node(r[i], r[j]) by {
            if i > 0 {
                assert(r[i] == insert_sorted(x, d)[i - 1] && r[j] == insert_sorted(x, d)[j - 1]);
            }
        }
    }
}

/// Inserting a well-formed element among well-formed elements leaves only
/// well-formed elements.
proof fn lemma_insert_sorted_ok(x: TreeNodeV, s: Seq<TreeNodeV>)
    requires
        node_ok(x),
        all_nodes_ok(s),
    ensures
        all_nodes_ok(insert_sorted(x, s)),
    decreases s.len(),
{
    let r = insert_sorted(x, s);
    if s.len() == 0 {
        assert(r =~= seq![x]);
        assert(r[0] == x);
        assert(r.drop_first() =~= Seq::<TreeNodeV>::empty());
        assert(all_nodes_ok(r.drop_first()));
        assert(all_nodes_ok(r));
    } else if le_node(x, s[0]) {
        assert(r =~= seq![x] + s);
        assert(r[0] == x);
        assert(r.drop_first() =~= s);
        assert(all_nodes_ok(r));
    } else {
        lemma_insert_sorted_ok(x, s.drop_first());
        assert(r =~= seq![s[0]] + insert_sorted(x, s.drop_first()));
        assert(r[0] == s[0]);
        assert(node_ok(s[0]));
        assert(r.drop_first() =~= insert_sorted(x, s.drop_first()));
        assert(all_nodes_ok(r));
    }
}

/// Sorting keeps the length and the well-formedness of all elements, and
/// puts the sequence into sibling order.
pub proof fn lemma_sort_nodes_ok(s: Seq<TreeNodeV>)
    requires
        all_nodes_ok(s),
    ensures
        sort_nodes(s).len() == s.len(),
        all_nodes_ok(sort_nodes(s)),
        sorted_nodes(sort_nodes(s)),
    decreases s.len(),
{
    if s.len() == 0 {
    } else {
        let d = s.drop_last();
        lemma_all_nodes_ok_index(s);
        lemma_all_nodes_ok_index(d);
        assert(forall|j: int| 0 <= j < d.len() ==> d[j] == s[j]);
        assert(all_nodes_ok(d));
        lemma_sort_nodes_ok(d);
        lemma_insert_sorted_len(s.last(), sort_nodes(d));
        lemma_insert_sorted_sorted(s.last(), sort_nodes(d));
        lemma_insert_sorted_ok(s.last(), sort_nodes(d));
    }
}

/// Splitting a concatenation: all elements are well formed on both sides.
proof fn lemma_all_nodes_ok_concat(a: Seq<TreeNodeV>, b: Seq<TreeNodeV>)
    ensures
        all_nodes_ok(a + b) <==> (all_nodes_ok(a) && all_nodes_ok(b)),
    decreases a,
{
    if a.len() == 0 {
        assert(a + b =~= b);
    } else {
        lemma_all_nodes_ok_concat(a.drop_first(), b);
        assert((a + b).drop_first() =~= a.drop_first() + b);
        assert((a + b)[0] == a[0]);
    }
}

/// Every node an entry contributes is well formed.
pub proof fn lemma_scan_entry_ok(dir: Seq<char>, e: DirEntryV)
    ensures
        scan_entry(dir, e) matches Some(n) ==> node_ok(n),
    decreases e,
{
    match e.info {
        EntryInfoV::Dir(entries) => {
            let p = join_path(dir, e.name);
            lemma_collect_nodes_ok(p, entries);
            lemma_sort_nodes_ok(collect_nodes(p, entries));
        },
        _ => {},
    }
}

/// All nodes a directory's entries contribute are well formed.
pub proof fn lemma_collect_nodes_ok(dir: Seq<char>, es: Seq<DirEntryV>)
    ensures
        all_nodes_ok(collect_nodes(dir, es)),
    decreases es,
{
    if es.len() == 0 {
    } else {
        lemma_scan_entry_ok(dir, es[0]);
        lemma_collect_nodes_ok(dir, es.drop_first());
        let o = opt_node_seq(scan_entry(dir, es[0]));
        match scan_entry(dir, es[0]) {
            Some(n) => {
                assert(o =~= seq![n]);
                assert(o[0] == n);
                assert(node_ok(n));
                assert(o.drop_first() =~= Seq::<TreeNodeV>::empty());
                assert(all_nodes_ok(o.drop_first()));
                assert(all_nodes_ok(o));
            },
            None => {},
        }
        lemma_all_nodes_ok_concat(o, collect_nodes(dir, es.drop_first()));
    }
}

/// Well-formedness of everything the scanner builds for a directory: every
/// leaf is a markdown file, every folder node carries a non-empty child
/// sequence, and every child sequence is in sibling order — folders before
/// files, names ascending case-insensitively.
pub proof fn lemma_scan_entries_wf(dir: Seq<char>, es: Seq<DirEntryV>)
    ensures
        nodes_ok(scan_entries(dir, es)),
        scan_entries(dir, es).len() == collect_nodes(dir, es).len(),
{
    lemma_collect_nodes_ok(dir, es);
    lemma_sort_nodes_ok(collect_nodes(dir, es));
}

/// Well-formedness of a whole scan: on success the result is a folder node
/// whose path is the root path as given, whose name is the root's base name,
/// and whose children are well formed. The root itself is never pruned, so
/// its child sequence — unlike any deeper folder's — may be empty.
pub proof fn lemma_scan_root_wf(root: Seq<char>, info: EntryInfoV)
    ensures
        scan_root(root, info) matches Ok(t) ==> {
            &&& t is Folder
            &&& t->Folder_path == root
            &&& t->Folder_name == base_name(root)
            &&& nodes_ok(t->Folder_children)
        },
{
    match info {
        EntryInfoV::Dir(es) => {
            lemma_scan_entries_wf(root, es);
        },
        _ => {},
    }
}

/// The scan fails — always with the not-a-directory error — exactly when
/// the snapshot says the root is not an existing directory; a directory that
/// merely cannot be listed is not a failure.
pub proof fn lemma_scan_root_err(root: Seq<char>, info: EntryInfoV)
    ensures
        scan_root(root, info) is Err <==> !(info is Dir || info is DeniedDir),
        scan_root(root, info) is Err ==> scan_root(root, info)->Err_0 == ScanError::NotADirectory,
{
}

/// Scanning an unmodified snapshot twice yields structurally identical
/// trees: the result is a function of the root path and the snapshot alone,
/// so any two results of the same scan are equal.
pub proof fn lemma_scan_deterministic(
    root: Seq<char>,
    info: EntryInfoV,
    r1: Result<TreeNodeV, ScanError>,
    r2: Result<TreeNodeV, ScanError>,
)
    requires
        r1 == scan_root(root, info),
        r2 == scan_root(root, info),
    ensures
        r1 == r2,
{
}

/// Taking one more entry appends that entry's contribution.
proof fn lemma_collect_nodes_snoc(dir: Seq<char>, es: Seq<DirEntryV>, i: int)
    requires
        0 <= i < es.len(),
    ensures
        collect_nodes(dir, es.take(i + 1)) =~= collect_nodes(dir, es.take(i)) + opt_node_seq(
            scan_entry(dir, es[i]),
        ),
    decreases i,
{
    let a = es.take(i + 1);
    if i == 0 {
        assert(a[0] == es[0]);
        assert(a.drop_first() =~= Seq::<DirEntryV>::empty());
        assert(es.take(0) =~= Seq::<DirEntryV>::empty());
        assert(collect_nodes(dir, a) =~= opt_node_seq(scan_entry(dir, es[0])));
    } else {
        let d = es.drop_first();
        lemma_collect_nodes_snoc(dir, d, i - 1);
        assert(a[0] == es[0]);
        assert(a.drop_first() =~= d.take(i));
        assert(es.take(i)[0] == es[0]);
        assert(es.take(i).drop_first() =~= d.take(i - 1));
        assert(d[i - 1] == es[i]);
        assert(collect_nodes(dir, es.take(i + 1)) =~= collect_nodes(dir, es.take(i))
            + opt_node_seq(scan_entry(dir, es[i])));
    }
}

/// An entry that contributes nothing — an unreadable subdirectory, a
/// subdirectory with no markdown beneath it, a file without a markdown name,
/// a special entry, or one whose type could not be determined — can appear
/// anywhere in a directory's listing without changing the scan of that
/// directory.
pub proof fn lemma_skipped_entry_invisible(
    dir: Seq<char>,
    es: Seq<DirEntryV>,
    i: int,
    e: DirEntryV,
)
    requires
        0 <= i <= es.len(),
        scan_entry(dir, e) is None,
    ensures
        scan_entries(dir, es.insert(i, e)) == scan_entries(dir, es),
{
    lemma_collect_nodes_insert_none(dir, es, i, e);
}

/// Inserting at the first position whose element the new one precedes or
/// equals is what `insert_sorted` does.
proof fn lemma_insert_sorted_at(x: TreeNodeV, s: Seq<TreeNodeV>, j: int)
    requires
        0 <= j <= s.len(),
        forall|k: int| 0 <= k < j ==> !le_node(x, s[k]),
        j == s.len() || le_node(x, s[j]),
    ensures
        insert_sorted(x, s) =~= s.insert(j, x),
    decreases j,
{
    s.insert_ensures(j, x);
    if j == 0 {
        assert(insert_sorted(x, s) =~= s.insert(0, x));
    } else {
        let d = s.drop_first();
        assert(forall|k: int| 0 <= k < d.len() ==> d[k] == s[k + 1]);
        assert(!le_node(x, s[0]));
        lemma_insert_sorted_at(x, d, j - 1);
        d.insert_ensures(j - 1, x);
        assert(insert_sorted(x, s) =~= seq![s[0]] + d.insert(j - 1, x));
        assert(insert_sorted(x, s) =~= s.insert(j, x));
    }
}

/// Places a built node into an already collected vector, keeping it sorted.
fn insert_node_sorted(out: &mut Vec<TreeNode>, x: TreeNode)
    ensures
        nodes_view(final(out)@) == insert_sorted(node_view(x), nodes_view(old(out)@)),
{
    let ghost s = nodes_view(old(out)@);
    proof {
        lemma_nodes_view_props(old(out)@);
    }
    let mut j: usize = 0;
    loop
        invariant
            out@ == old(out)@,
            j <= out@.len(),
            s == nodes_view(out@),
            s.len() == out@.len(),
            forall|k: int| 0 <= k < out@.len() ==> s[k] == node_view(out@[k]),
            forall|k: int| 0 <= k < j ==> !le_node(node_view(x), s[k]),
        ensures
            out@ == old(out)@,
            j <= out@.len(),
            j == out@.len() || le_node(node_view(x), s[j as int]),
            forall|k: int| 0 <= k < j ==> !le_node(node_view(x), s[k]),
        decreases out@.len() - j,
    {
        if j == out.len() {
            break ;
        }
        if le_node_exec(&x, &out[j]) {
            break ;
        }
        j += 1;
    }
    proof {
        lemma_insert_sorted_at(node_view(x), s, j as int);
        old(out)@.insert_ensures(j as int, x);
        s.insert_ensures(j as int, node_view(x));
    }
    out.insert(j, x);
    proof {
        lemma_nodes_view_props(out@);
        assert forall|i: int| 0 <= i < nodes_view(out@).len() implies nodes_view(out@)[i]
            == s.insert(j as int, node_view(x))[i] by {
            if i < j {
                assert(out@[i] == old(out)@[i]);
            } else if i == j {
                assert(out@[i] == x);
            } else {
                assert(out@[i] == old(out)@[i - 1]);
                assert(s.insert(j as int, node_view(x))[i] == s[i - 1]);
            }
        }
        assert(nodes_view(out@) =~= s.insert(j as int, node_view(x)));
    }
}

/// The recursive walk: the filtered, pruned and sorted children of the
/// directory at `dir_path`, whose direct entries are `entries`. A child
/// directory's entries sit in the snapshot; an unreadable one is a
/// `DeniedDir` and contributes nothing, so a scan never fails below the
/// root.
pub fn scan_md_tree(dir_path: &str, entries: &Vec<DirEntry>) -> (out: Vec<TreeNode>)
    ensures
        nodes_view(out@) == scan_entries(dir_path@, dir_entries_view(entries@)),
    decreases entries@,
{
    let ghost evs = dir_entries_view(entries@);
    proof {
        lemma_dir_entries_view_props(entries@);
        assert(evs.take(0) =~= Seq::<DirEntryV>::empty());
    }
    let mut out: Vec<TreeNode> = Vec::new();
    let mut i: usize = 0;
    while i < entries.len()
        invariant
            i <= entries@.len(),
            evs == dir_entries_view(entries@),
            evs.len() == entries@.len(),
            forall|k: int| 0 <= k < entries@.len() ==> evs[k] == dir_entry_view(entries@[k]),
            nodes_view(out@) == sort_nodes(collect_nodes(dir_path@, evs.take(i as int))),
        decreases entries@.len() - i,
    {
        let e = &entries[i];
        let ghost prev = nodes_view(out@);
        let ghost kept = scan_entry(dir_path@, evs[i as int]);
        proof {
            lemma_collect_nodes_snoc(dir_path@, evs, i as int);
        }
        match &e.info {
            EntryInfo::Dir(sub) => {
                let child_path = join_path_exec(dir_path, e.name.as_str());
                proof {
                    assert(entries@[i as int].info == EntryInfo::Dir(*sub));
                    assert(decreases_to!(entries@ => entries@[i as int]));
                    assert(decreases_to!(entries@[i as int] => entries@[i as int].info));
                    assert(entries@[i as int].info->Dir_0 == *sub);
                    assert(decreases_to!(
                        entries@[i as int].info => entries@[i as int].info->Dir_0));
                    assert(decreases_to!(*sub => sub@));
                }
                let children = scan_md_tree(child_path.as_str(), sub);
                proof {
                    lemma_nodes_view_props(children@);
                }
                if children.len() > 0 {
                    let node = TreeNode::Folder {
                        name: e.name.clone(),
                        path: child_path,
                        children,
                    };
                    proof {
                        assert(kept == Some(node_view(node)));
                    }
                    insert_node_sorted(&mut out, node);
                }
            },
            EntryInfo::File => {
                if md_name_exec(e.name.as_str()) {
                    let node = TreeNode::File {
                        name: e.name.clone(),
                        path: join_path_exec(dir_path, e.name.as_str()),
                    };
                    proof {
                        assert(kept == Some(node_view(node)));
                    }
                    insert_node_sorted(&mut out, node);
                }
            },
            _ => {},
        }
        proof {
            match kept {
                Some(n) => {
                    let c = collect_nodes(dir_path@, evs.take(i as int));
                    assert(collect_nodes(dir_path@, evs.take(i as int + 1)) =~= c + seq![n]);
                    assert((c + seq![n]).drop_last() =~= c);
                    assert((c + seq![n]).last() == n);
                    assert(nodes_view(out@) == sort_nodes(
                        collect_nodes(dir_path@, evs.take(i as int + 1)),
                    ));
                },
                None => {
                    assert(collect_nodes(dir_path@, evs.take(i as int + 1)) =~= collect_nodes(
                        dir_path@,
                        evs.take(i as int),
                    ));
                },
            }
        }
        i += 1;
    }
    proof {
        assert(evs.take(evs.len() as int) =~= evs);
    }
    out
}

/// Scans the workspace rooted at `root`. Fails exactly when the snapshot
/// says the root is not an existing directory; a root directory that cannot
/// be listed still succeeds, as a folder with no children. On success the
/// returned node is a folder named after the root path's base name, carrying
/// the root path as given.
pub fn scan_workspace(root: &str, info: &EntryInfo) -> (r: Result<TreeNode, ScanError>)
    ensures
        res_view(r) == scan_root(root@, entry_info_view(*info)),
{
    match info {
        EntryInfo::Dir(entries) => {
            let children = scan_md_tree(root, entries);
            let name = base_name_exec(root);
            let path = root.to_owned();
            Ok(TreeNode::Folder { name, path, children })
        },
        EntryInfo::DeniedDir => {
            let name = base_name_exec(root);
            let path = root.to_owned();
            let children: Vec<TreeNode> = Vec::new();
            proof {
                assert(nodes_view(children@) =~= Seq::<TreeNodeV>::empty());
            }
            Ok(TreeNode::Folder { name, path, children })
        },
        _ => Err(ScanError::NotADirectory),
    }
}

/// Inserting a skipped entry leaves the collected children unchanged.
proof fn lemma_collect_nodes_insert_none(dir: Seq<char>, es: Seq<DirEntryV>, i: int, e: DirEntryV)
    requires
        0 <= i <= es.len(),
        scan_entry(dir, e) is None,
    ensures
        collect_nodes(dir, es.insert(i, e)) =~= collect_nodes(dir, es),
    decreases es.len(),
{
    let a = es.insert(i, e);
    if i == 0 {
        assert(a[0] == e);
        assert(a.drop_first() =~= es);
        assert(collect_nodes(dir, a) =~= collect_nodes(dir, es));
    } else {
        assert(a[0] == es[0]);
        assert(a.drop_first() =~= es.drop_first().insert(i - 1, e));
        lemma_collect_nodes_insert_none(dir, es.drop_first(), i - 1, e);
    }
}

} // verus!

