//! Data model: what a directory tree looks like on disk (the scanner's
//! input) and the filtered tree the scanner returns (its output), together
//! with the spec-level views of both.

use vstd::prelude::*;

verus! {

/// What the filesystem reports for one named directory entry.
///
/// A snapshot is taken by the host binary with ordinary directory listings;
/// the scanner itself never touches the filesystem. Listing failures are part
/// of the snapshot: a directory whose contents could not be enumerated is
/// `DeniedDir`, an entry whose type lookup failed is `Unknown`.
#[derive(Debug, PartialEq, Eq)]
pub enum EntryInfo {
    /// A directory that could be listed, with its direct entries.
    Dir(Vec<DirEntry>),
    /// A directory whose listing failed (permission denied, removed mid-walk).
    DeniedDir,
    /// A regular file.
    File,
    /// Neither a regular file nor a directory (symlink, device, socket, ...).
    Special,
    /// The entry's type could not be determined.
    Unknown,
}

/// One named entry of a directory listing.
#[derive(Debug, PartialEq, Eq)]
pub struct DirEntry {
    /// Base name of the entry (last path segment).
    pub name: String,
    /// What the filesystem reports the entry to be.
    pub info: EntryInfo,
}

/// A node of the filtered workspace tree.
///
/// Files never carry children, so "a file has no children" holds by
/// construction rather than by convention.
#[derive(Debug, PartialEq, Eq)]
pub enum TreeNode {
    /// A folder with at least one markdown file somewhere beneath it.
    Folder { name: String, path: String, children: Vec<TreeNode> },
    /// A markdown file.
    File { name: String, path: String },
}

/// Spec-level view of `EntryInfo`.
pub enum EntryInfoV {
    Dir(Seq<DirEntryV>),
    DeniedDir,
    File,
    Special,
    Unknown,
}

/// Spec-level view of `DirEntry`.
pub struct DirEntryV {
    pub name: Seq<char>,
    pub info: EntryInfoV,
}

/// Spec-level view of `TreeNode`.
pub enum TreeNodeV {
    Folder { name: Seq<char>, path: Seq<char>, children: Seq<TreeNodeV> },
    File { name: Seq<char>, path: Seq<char> },
}

pub open spec fn entry_info_view(i: EntryInfo) -> EntryInfoV
    decreases i,
{
    match i {
        EntryInfo::Dir(entries) => EntryInfoV::Dir(dir_entries_view(entries@)),
        EntryInfo::DeniedDir => EntryInfoV::DeniedDir,
        EntryInfo::File => EntryInfoV::File,
        EntryInfo::Special => EntryInfoV::Special,
        EntryInfo::Unknown => EntryInfoV::Unknown,
    }
}

pub open spec fn dir_entry_view(e: DirEntry) -> DirEntryV
    decreases e,
{
    DirEntryV { name: e.name@, info: entry_info_view(e.info) }
}

pub open spec fn dir_entries_view(s: Seq<DirEntry>) -> Seq<DirEntryV>
    decreases s,
{
    if s.len() == 0 {
        Seq::empty()
    } else {
        seq![dir_entry_view(s[0])] + dir_entries_view(s.drop_first())
    }
}

pub open spec fn node_view(t: TreeNode) -> TreeNodeV
    decreases t,
{
    match t {
        TreeNode::Folder { name, path, children } => TreeNodeV::Folder {
            name: name@,
            path: path@,
            children: nodes_view(children@),
        },
        TreeNode::File { name, path } => TreeNodeV::File { name: name@, path: path@ },
    }
}

pub open spec fn nodes_view(s: Seq<TreeNode>) -> Seq<TreeNodeV>
    decreases s,
{
    if s.len() == 0 {
        Seq::empty()
    } else {
        seq![node_view(s[0])] + nodes_view(s.drop_first())
    }
}

/// Case-insensitively lowered code point of a character: ASCII upper-case
/// letters map to their lower-case counterpart, everything else to itself.
pub open spec fn lower(c: char) -> u32 {
    if 65 <= c as u32 && c as u32 <= 90 {
        (c as u32 + 32) as u32
    } else {
        c as u32
    }
}

/// A name counts as a markdown file name when it ends in a case-insensitive
/// `.md` extension with a non-empty stem before the dot; `.md` alone is a
/// hidden file without an extension, not a markdown file.
pub open spec fn md_name(name: Seq<char>) -> bool {
    &&& name.len() >= 4
    &&& name[name.len() - 3] == '.'
    &&& lower(name[name.len() - 2]) == 109
    &&& lower(name[name.len() - 1]) == 100
}

/// Lowered code point of a character.
pub fn lower_exec(c: char) -> (r: u32)
    ensures
        r == lower(c),
{
    let u = c as u32;
    if 65 <= u && u <= 90 {
        u + 32
    } else {
        u
    }
}

/// Decides whether a name is a markdown file name.
pub fn md_name_exec(name: &str) -> (r: bool)
    ensures
        r == md_name(name@),
{
    let n = name.unicode_len();
    if n < 4 {
        return false;
    }
    if name.get_char(n - 3) != '.' {
        return false;
    }
    lower_exec(name.get_char(n - 2)) == 109 && lower_exec(name.get_char(n - 1)) == 100
}

/// The view of a node sequence keeps length and maps each node to its view.
pub proof fn lemma_nodes_view_props(s: Seq<TreeNode>)
    ensures
        nodes_view(s).len() == s.len(),
        forall|i: int| 0 <= i < s.len() ==> nodes_view(s)[i] == node_view(s[i]),
    decreases s,
{
    if s.len() == 0 {
    } else {
        lemma_nodes_view_props(s.drop_first());
        assert forall|i: int| 0 <= i < s.len() implies nodes_view(s)[i] == node_view(s[i]) by {
            if i > 0 {
                assert(s.drop_first()[i - 1] == s[i]);
            }
        }
    }
}

/// The view of an entry sequence keeps length and maps each entry to its view.
pub proof fn lemma_dir_entries_view_props(s: Seq<DirEntry>)
    ensures
        dir_entries_view(s).len() == s.len(),
        forall|i: int| 0 <= i < s.len() ==> dir_entries_view(s)[i] == dir_entry_view(s[i]),
    decreases s,
{
    if s.len() == 0 {
    } else {
        lemma_dir_entries_view_props(s.drop_first());
        assert forall|i: int| 0 <= i < s.len() implies dir_entries_view(s)[i] == dir_entry_view(
            s[i],
        ) by {
            if i > 0 {
                assert(s.drop_first()[i - 1] == s[i]);
            }
        }
    }
}

} // verus!
