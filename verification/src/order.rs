//! Sibling ordering: folders come before files, and within each kind names
//! compare ascending by their case-insensitively lowered characters.

use vstd::prelude::*;
use crate::model::{lower, lower_exec, node_view, TreeNode, TreeNodeV};

verus! {

/// Case-insensitive lexicographic "less than or equal" on names.
pub open spec fn lex_lower_le(a: Seq<char>, b: Seq<char>) -> bool
    decreases a.len(),
{
    if a.len() == 0 {
        true
    } else if b.len() == 0 {
        false
    } else if lower(a[0]) == lower(b[0]) {
        lex_lower_le(a.drop_first(), b.drop_first())
    } else {
        lower(a[0]) < lower(b[0])
    }
}

/// Spec-level name of a tree node.
pub open spec fn node_name(t: TreeNodeV) -> Seq<char> {
    match t {
        TreeNodeV::Folder { name, .. } => name,
        TreeNodeV::File { name, .. } => name,
    }
}

/// The sibling order: every folder precedes every file; within one kind,
/// names ascend case-insensitively.
pub open spec fn le_node(a: TreeNodeV, b: TreeNodeV) -> bool {
    if a is Folder && b is File {
        true
    } else if a is File && b is Folder {
        false
    } else {
        lex_lower_le(node_name(a), node_name(b))
    }
}

/// A sequence of siblings in scanner order.
pub open spec fn sorted_nodes(s: Seq<TreeNodeV>) -> bool {
    forall|i: int, j: int| 0 <= i < j < s.len() ==> le_node(s[i], s[j])
}

/// The name order is total: of any two names, one is less than or equal to
/// the other.
pub proof fn lemma_lex_lower_le_total(a: Seq<char>, b: Seq<char>)
    ensures
        lex_lower_le(a, b) || lex_lower_le(b, a),
    decreases a.len(),
{
    if a.len() == 0 || b.len() == 0 {
    } else if lower(a[0]) == lower(b[0]) {
        lemma_lex_lower_le_total(a.drop_first(), b.drop_first());
    }
}

/// The name order is transitive.
pub proof fn lemma_lex_lower_le_trans(a: Seq<char>, b: Seq<char>, c: Seq<char>)
    requires
        lex_lower_le(a, b),
        lex_lower_le(b, c),
    ensures
        lex_lower_le(a, c),
    decreases a.len(),
{
    if a.len() == 0 || b.len() == 0 || c.len() == 0 {
    } else if lower(a[0]) == lower(b[0]) && lower(b[0]) == lower(c[0]) {
        lemma_lex_lower_le_trans(a.drop_first(), b.drop_first(), c.drop_first());
    }
}

/// The sibling order is total.
pub proof fn lemma_le_node_total(a: TreeNodeV, b: TreeNodeV)
    ensures
        le_node(a, b) || le_node(b, a),
{
    lemma_lex_lower_le_total(node_name(a), node_name(b));
}

/// The sibling order is transitive.
pub proof fn lemma_le_node_trans(a: TreeNodeV, b: TreeNodeV, c: TreeNodeV)
    requires
        le_node(a, b),
        le_node(b, c),
    ensures
        le_node(a, c),
{
    if !(a is Folder && c is File) && !(a is File && c is Folder) {
        if lex_lower_le(node_name(a), node_name(b)) && lex_lower_le(node_name(b), node_name(c)) {
            lemma_lex_lower_le_trans(node_name(a), node_name(b), node_name(c));
        }
    }
}

/// Decides the case-insensitive lexicographic order on names.
pub fn lex_lower_le_exec(a: &str, b: &str) -> (r: bool)
    ensures
        r == lex_lower_le(a@, b@),
    decreases a@.len(),
{
    let an = a.unicode_len();
    let bn = b.unicode_len();
    if an == 0 {
        true
    } else if bn == 0 {
        false
    } else {
        let ca = lower_exec(a.get_char(0));
        let cb = lower_exec(b.get_char(0));
        if ca == cb {
            let ra = a.substring_char(1, an);
            let rb = b.substring_char(1, bn);
            proof {
                assert(ra@ =~= a@.drop_first());
                assert(rb@ =~= b@.drop_first());
            }
            lex_lower_le_exec(ra, rb)
        } else {
            ca < cb
        }
    }
}

/// Decides the sibling order between two built nodes.
pub fn le_node_exec(a: &TreeNode, b: &TreeNode) -> (r: bool)
    ensures
        r == le_node(node_view(*a), node_view(*b)),
{
    match (a, b) {
        (TreeNode::Folder { .. }, TreeNode::File { .. }) => true,
        (TreeNode::File { .. }, TreeNode::Folder { .. }) => false,
        (TreeNode::Folder { name: na, .. }, TreeNode::Folder { name: nb, .. }) => {
            lex_lower_le_exec(na.as_str(), nb.as_str())
        }
        (TreeNode::File { name: na, .. }, TreeNode::File { name: nb, .. }) => {
            lex_lower_le_exec(na.as_str(), nb.as_str())
        }
    }
}

} // verus!
