//! The tree: groups, and references to entries as leaves.

use vstd::prelude::*;
use crate::query::Field;

verus! {

/// A node of the tree.
#[derive(Debug)]
pub enum TreeNode {
    Group(TreeGroup),
    Select(Field),
}

/// A group and its children, in order.
#[derive(Debug)]
pub struct TreeGroup {
    pub id: String,
    pub label: String,
    pub help_text: String,
    pub members: Vec<TreeNode>,
}

impl TreeGroup {
    /// The child at `i`, where it is a group.
    pub open spec fn group_at(&self, i: int) -> Option<TreeGroup> {
        if 0 <= i < self.members@.len() {
            match self.members@[i] {
                TreeNode::Group(g) => Some(g),
                TreeNode::Select(_) => None,
            }
        } else {
            None
        }
    }

    /// The child at `j`, where it is a leaf.
    pub open spec fn leaf_at(&self, j: int) -> Option<Field> {
        if 0 <= j < self.members@.len() {
            match self.members@[j] {
                TreeNode::Group(_) => None,
                TreeNode::Select(f) => Some(f),
            }
        } else {
            None
        }
    }
}

/// Whether two references read the same.
pub open spec fn same_field(x: Field, y: Field) -> bool {
    &&& x.table_id@ == y.table_id@
    &&& x.select_id@ == y.select_id@
    &&& x.version == y.version
    &&& match (x.table_node, y.table_node) {
        (Some(p), Some(q)) => p@ == q@,
        (None, None) => true,
        _ => false,
    }
}

/// Whether two groups of leaves read the same: their texts, and their
/// leaves one for one.
pub open spec fn same_leaves(x: TreeGroup, y: TreeGroup) -> bool {
    &&& x.id@ == y.id@
    &&& x.label@ == y.label@
    &&& x.help_text@ == y.help_text@
    &&& x.members@.len() == y.members@.len()
    &&& forall|j: int|
        0 <= j < x.members@.len() ==> (#[trigger] x.leaf_at(j)) is Some && y.leaf_at(j) is Some
            && same_field(x.leaf_at(j)->0, y.leaf_at(j)->0)
}

/// Whether two trees of two levels read the same: their texts, and their
/// groups of leaves one for one.
pub open spec fn same_tree(x: TreeGroup, y: TreeGroup) -> bool {
    &&& x.id@ == y.id@
    &&& x.label@ == y.label@
    &&& x.help_text@ == y.help_text@
    &&& x.members@.len() == y.members@.len()
    &&& forall|i: int|
        0 <= i < x.members@.len() ==> (#[trigger] x.group_at(i)) is Some && y.group_at(i) is Some
            && same_leaves(x.group_at(i)->0, y.group_at(i)->0)
}

} // verus!
