//! Builds the tree of categories from a catalog and a table of labels.

use vstd::prelude::*;
use vstd::string::*;
use crate::categories::{add_entry, arrangement_of, arranges, Arrangement, Bucket, Categories, Category};
use crate::classify::{category_of, classify};
use crate::query::{Field, ValueVersion};
use crate::select_tree::{TreeGroup, TreeNode};
use crate::string_map::StringMap;
use crate::table::{Select, Table};
use crate::text::{decimal, decimal_string};

verus! {

/// The entries that take part in the tree, by category and label. They are
/// taken in turn, so of two entries of one category with one label the
/// later stays.
pub open spec fn buckets(selects: Seq<Select>) -> Map<u32, Bucket>
    decreases selects.len(),
{
    if selects.len() == 0 {
        Map::empty()
    } else {
        let before = buckets(selects.drop_last());
        let s = selects.last();
        match category_of(s.id@) {
            Ok(key) => add_entry(before, key, s.label@, s.id@),
            Err(_) => before,
        }
    }
}

/// The identifier of the root.
pub open spec fn root_id() -> Seq<char> {
    "growth-signals"@
}

/// The label of the root.
pub open spec fn root_label() -> Seq<char> {
    "Growth Signals"@
}

/// The help text of the root.
pub open spec fn root_help() -> Seq<char> {
    "Behavioral intent data sourced daily from internet traffic"@
}

/// The identifier of the group of a category.
pub open spec fn group_id(key: u32) -> Seq<char> {
    "IAB"@ + decimal(key as nat)
}

/// The label of the group of a category: the one that the table of labels
/// holds for the group's identifier, or else one made from the number.
pub open spec fn group_label(key: u32, lookup: Map<Seq<char>, Seq<char>>) -> Seq<char> {
    if lookup.contains_key(group_id(key)) {
        lookup[group_id(key)]
    } else {
        "IAB Category "@ + decimal(key as nat)
    }
}

/// The help text of the group of a category.
pub open spec fn group_help(key: u32) -> Seq<char> {
    "IAB OpenRTB 2.4 category "@ + decimal(key as nat)
}

/// Whether `node` is the reference to the entry `select_id` of the table
/// `table_id`.
pub open spec fn is_leaf(node: TreeNode, table_id: Seq<char>, select_id: Seq<char>) -> bool {
    &&& node matches TreeNode::Select(f)
    &&& f.table_id@ == table_id
    &&& f.select_id@ == select_id
    &&& f.table_node is None
    &&& f.version == ValueVersion::Latest
}

/// Whether `node` is the group of the category `key`: its children are the
/// references to `entries`, one for one and in their order.
pub open spec fn is_group(
    node: TreeNode,
    table_id: Seq<char>,
    key: u32,
    entries: Seq<(Seq<char>, Seq<char>)>,
    lookup: Map<Seq<char>, Seq<char>>,
) -> bool {
    &&& node matches TreeNode::Group(g)
    &&& g.id@ == group_id(key)
    &&& g.label@ == group_label(key, lookup)
    &&& g.help_text@ == group_help(key)
    &&& g.members@.len() == entries.len()
    &&& forall|j: int|
        0 <= j < entries.len() ==> is_leaf(#[trigger] g.members@[j], table_id, entries[j].1)
}

/// Whether `root` is the tree of `a`: its children are the groups of the
/// categories, one for one and in their order.
pub open spec fn is_root(
    root: TreeGroup,
    table_id: Seq<char>,
    a: Arrangement,
    lookup: Map<Seq<char>, Seq<char>>,
) -> bool {
    &&& root.id@ == root_id()
    &&& root.label@ == root_label()
    &&& root.help_text@ == root_help()
    &&& root.members@.len() == a.len()
    &&& forall|i: int|
        0 <= i < a.len() ==> is_group(#[trigger] root.members@[i], table_id, a[i].0, a[i].1, lookup)
}

/// Sorts the entries that have a category into their categories.
pub fn aggregate(selects: &Vec<Select>) -> (c: Categories)
    ensures
        c.wf(),
        c@ == buckets(selects@),
        c.arrangement() == arrangement_of(buckets(selects@)),
{
    let mut c = Categories::new();
    let mut i: usize = 0;
    while i < selects.len()
        invariant
            i <= selects@.len(),
            c.wf(),
            c@ == buckets(selects@.take(i as int)),
        decreases selects.len() - i,
    {
        proof {
            assert(selects@.take(i + 1).drop_last() =~= selects@.take(i as int));
        }
        match classify(selects[i].id.as_str()) {
            Ok(key) => {
                c.insert(key, selects[i].label.clone(), selects[i].id.clone());
            },
            Err(_) => {},
        }
        i += 1;
    }
    proof {
        assert(selects@.take(i as int) =~= selects@);
        c.lemma_arrangement();
    }
    c
}

/// `prefix` followed by the decimal numeral of `key`.
fn numbered(prefix: &str, key: u32) -> (s: String)
    ensures
        s@ == prefix@ + decimal(key as nat),
{
    let mut s = String::from_str(prefix);
    let digits = decimal_string(key);
    s.append(digits.as_str());
    s
}

/// The reference to one entry.
fn leaf_node(table_id: &str, select_id: &String) -> (node: TreeNode)
    ensures
        is_leaf(node, table_id@, select_id@),
{
    TreeNode::Select(
        Field {
            table_id: String::from_str(table_id),
            select_id: select_id.clone(),
            table_node: None,
            version: ValueVersion::Latest,
        },
    )
}

/// The group of one category.
fn group_node(table_id: &str, category: &Category, lookup: &StringMap) -> (node: TreeNode)
    requires
        lookup.wf(),
    ensures
        is_group(node, table_id@, category.key, category.entries.listing(), lookup@),
{
    let id = numbered("IAB", category.key);
    let label = match lookup.get(id.as_str()) {
        Some(l) => l.clone(),
        None => numbered("IAB Category ", category.key),
    };
    let help_text = numbered("IAB OpenRTB 2.4 category ", category.key);
    let mut members: Vec<TreeNode> = Vec::new();
    let mut j: usize = 0;
    while j < category.entries.len()
        invariant
            j <= category.entries.listing().len(),
            members@.len() == j,
            forall|n: int|
                0 <= n < j ==> is_leaf(
                    #[trigger] members@[n],
                    table_id@,
                    category.entries.listing()[n].1,
                ),
        decreases category.entries.listing().len() - j,
    {
        members.push(leaf_node(table_id, category.entries.value_at(j)));
        j += 1;
    }
    TreeNode::Group(TreeGroup { id, label, help_text, members })
}

/// Builds the tree: under the root one group for each category, in order,
/// and under each group one reference for each of its entries, in order.
pub fn materialize(table_id: &str, categories: &Categories, lookup: &StringMap) -> (root: TreeGroup)
    requires
        lookup.wf(),
    ensures
        is_root(root, table_id@, categories.arrangement(), lookup@),
{
    let mut members: Vec<TreeNode> = Vec::new();
    let mut i: usize = 0;
    while i < categories.len()
        invariant
            lookup.wf(),
            i <= categories.arrangement().len(),
            members@.len() == i,
            forall|n: int|
                0 <= n < i ==> is_group(
                    #[trigger] members@[n],
                    table_id@,
                    categories.arrangement()[n].0,
                    categories.arrangement()[n].1,
                    lookup@,
                ),
        decreases categories.arrangement().len() - i,
    {
        members.push(group_node(table_id, categories.get(i), lookup));
        i += 1;
    }
    TreeGroup {
        id: String::from_str("growth-signals"),
        label: String::from_str("Growth Signals"),
        help_text: String::from_str("Behavioral intent data sourced daily from internet traffic"),
        members,
    }
}

/// Where the catalog and the table of labels are read from.
#[derive(Debug)]
pub struct TreeArgs {
    /// The document that holds the table.
    pub table: String,
    /// The document that holds the labels of the categories.
    pub lookup: String,
}

impl TreeArgs {
    /// Builds the tree of a catalog and a table of labels, once both have
    /// been read from where the arguments say: the entries that have a
    /// category, arranged by category and label, under the root.
    pub fn run(&self, table: &Table, lookup: &StringMap) -> (root: TreeGroup)
        requires
            lookup.wf(),
        ensures
            arranges(arrangement_of(buckets(table.selects@)), buckets(table.selects@)),
            is_root(root, table.id@, arrangement_of(buckets(table.selects@)), lookup@),
    {
        let categories = aggregate(&table.selects);
        proof {
            categories.lemma_arrangement();
        }
        materialize(table.id.as_str(), &categories, lookup)
    }
}

} // verus!
