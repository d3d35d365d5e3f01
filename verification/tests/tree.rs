use growth_signals::categories::Categories;
use growth_signals::query::ValueVersion;
use growth_signals::select_tree::{TreeGroup, TreeNode};
use growth_signals::string_map::StringMap;
use growth_signals::table::{Select, Table};
use growth_signals::tree::{aggregate, materialize, TreeArgs};

fn select(id: &str, label: &str) -> Select {
    Select { id: id.to_string(), label: label.to_string() }
}

fn table(selects: Vec<Select>) -> Table {
    Table { id: "signals".to_string(), selects }
}

fn lookup(pairs: &[(&str, &str)]) -> StringMap {
    let mut m = StringMap::new();
    for (k, v) in pairs {
        m.insert(k.to_string(), v.to_string());
    }
    m
}

fn args() -> TreeArgs {
    TreeArgs { table: "table.json".to_string(), lookup: "lookup.json".to_string() }
}

fn build(selects: Vec<Select>, pairs: &[(&str, &str)]) -> TreeGroup {
    args().run(&table(selects), &lookup(pairs))
}

fn group(node: &TreeNode) -> &TreeGroup {
    match node {
        TreeNode::Group(g) => g,
        TreeNode::Select(_) => panic!("a group was expected"),
    }
}

fn leaves(g: &TreeGroup) -> Vec<String> {
    let mut out = Vec::new();
    for m in &g.members {
        match m {
            TreeNode::Select(f) => out.push(f.select_id.clone()),
            TreeNode::Group(_) => panic!("a leaf was expected"),
        }
    }
    out
}

fn flat(g: &TreeGroup, out: &mut Vec<String>) {
    out.push(format!("group {} | {} | {}", g.id, g.label, g.help_text));
    for m in &g.members {
        match m {
            TreeNode::Group(inner) => flat(inner, out),
            TreeNode::Select(f) => out.push(format!(
                "leaf {} | {} | {:?} | {:?}",
                f.table_id, f.select_id, f.table_node, f.version
            )),
        }
    }
    out.push("end".to_string());
}

#[test]
fn root_has_fixed_texts() {
    let root = build(vec![], &[]);
    assert_eq!(root.id, "growth-signals");
    assert_eq!(root.label, "Growth Signals");
    assert_eq!(root.help_text, "Behavioral intent data sourced daily from internet traffic");
    assert!(root.members.is_empty());
}

#[test]
fn lookup_hit_labels_the_group() {
    let root = build(vec![select("IAB3-Sedans", "Sedans")], &[("IAB3", "Cars")]);
    assert_eq!(root.members.len(), 1);
    let g = group(&root.members[0]);
    assert_eq!(g.id, "IAB3");
    assert_eq!(g.label, "Cars");
    assert_eq!(g.help_text, "IAB OpenRTB 2.4 category 3");
    assert_eq!(leaves(g), vec!["IAB3-Sedans".to_string()]);
}

#[test]
fn lookup_miss_falls_back() {
    let root = build(vec![select("IAB42_Things", "Things")], &[("IAB3", "Cars"), ("IAB4", "Jobs")]);
    assert_eq!(root.members.len(), 1);
    let g = group(&root.members[0]);
    assert_eq!(g.id, "IAB42");
    assert_eq!(g.label, "IAB Category 42");
    assert_eq!(g.help_text, "IAB OpenRTB 2.4 category 42");
}

#[test]
fn leaf_refers_to_the_table() {
    let root = build(vec![select("IAB3-Sedans", "Sedans")], &[]);
    let g = group(&root.members[0]);
    match &g.members[0] {
        TreeNode::Select(f) => {
            assert_eq!(f.table_id, "signals");
            assert_eq!(f.select_id, "IAB3-Sedans");
            assert_eq!(f.table_node, None);
            assert_eq!(f.version, ValueVersion::Latest);
        }
        TreeNode::Group(_) => panic!("a leaf was expected"),
    }
}

#[test]
fn entries_without_prefix_are_left_out() {
    let root = build(
        vec![select("age", "Age"), select("IAB1-Books", "Books"), select("XIAB1-Films", "Films")],
        &[],
    );
    let mut out = Vec::new();
    flat(&root, &mut out);
    assert_eq!(root.members.len(), 1);
    assert_eq!(leaves(group(&root.members[0])), vec!["IAB1-Books".to_string()]);
    assert!(out.iter().all(|line| !line.contains("age") && !line.contains("XIAB1")));
}

#[test]
fn non_numeric_category_gives_no_node() {
    let root = build(vec![select("IABxyz-Foo", "Foo")], &[("IABxyz", "Nothing")]);
    assert!(root.members.is_empty());
    let root = build(vec![select("IABxyz-Foo", "Foo"), select("IAB2-Bar", "Bar")], &[]);
    assert_eq!(root.members.len(), 1);
    assert_eq!(leaves(group(&root.members[0])), vec!["IAB2-Bar".to_string()]);
}

#[test]
fn missing_delimiter_is_skipped() {
    let root = build(vec![select("IAB7Foo", "Foo"), select("IAB7-Foo", "Foo")], &[]);
    assert_eq!(root.members.len(), 1);
    let g = group(&root.members[0]);
    assert_eq!(g.id, "IAB7");
    assert_eq!(leaves(g), vec!["IAB7-Foo".to_string()]);
}

#[test]
fn groups_ascend_by_number_and_leaves_by_label() {
    let root = build(
        vec![
            select("IAB10-b", "pears"),
            select("IAB2_z", "zebra"),
            select("IAB10-a", "plums"),
            select("IAB2-y", "apple"),
            select("IAB1-q", "Zed"),
            select("IAB1-r", "alpha"),
            select("IAB2-x", "Apple"),
        ],
        &[],
    );
    let ids: Vec<&str> = root.members.iter().map(|m| group(m).id.as_str()).collect();
    assert_eq!(ids, vec!["IAB1", "IAB2", "IAB10"]);
    assert_eq!(leaves(group(&root.members[0])), vec!["IAB1-q".to_string(), "IAB1-r".to_string()]);
    assert_eq!(
        leaves(group(&root.members[1])),
        vec!["IAB2-x".to_string(), "IAB2-y".to_string(), "IAB2_z".to_string()]
    );
    assert_eq!(leaves(group(&root.members[2])), vec!["IAB10-b".to_string(), "IAB10-a".to_string()]);
}

#[test]
fn later_entry_with_the_same_label_wins() {
    let root = build(
        vec![select("IAB3-first", "Cars"), select("IAB3-other", "Bikes"), select("IAB3_second", "Cars")],
        &[],
    );
    assert_eq!(root.members.len(), 1);
    assert_eq!(
        leaves(group(&root.members[0])),
        vec!["IAB3-other".to_string(), "IAB3_second".to_string()]
    );
}

#[test]
fn same_label_in_two_categories_stays_twice() {
    let root = build(vec![select("IAB3-a", "Cars"), select("IAB4-a", "Cars")], &[]);
    assert_eq!(root.members.len(), 2);
    assert_eq!(leaves(group(&root.members[0])), vec!["IAB3-a".to_string()]);
    assert_eq!(leaves(group(&root.members[1])), vec!["IAB4-a".to_string()]);
}

#[test]
fn numbers_written_differently_share_a_group() {
    let root = build(vec![select("IAB07-a", "a"), select("IAB7-b", "b"), select("IAB+7_c", "c")], &[]);
    assert_eq!(root.members.len(), 1);
    let g = group(&root.members[0]);
    assert_eq!(g.id, "IAB7");
    assert_eq!(leaves(g).len(), 3);
}

#[test]
fn two_runs_give_the_same_tree() {
    let selects = || {
        vec![
            select("IAB9-b", "b"),
            select("nothing", "n"),
            select("IAB1_a", "a"),
            select("IAB9-c", "b"),
            select("IABq-c", "c"),
        ]
    };
    let pairs = [("IAB9", "Nine")];
    let mut first = Vec::new();
    flat(&build(selects(), &pairs), &mut first);
    let mut second = Vec::new();
    flat(&build(selects(), &pairs), &mut second);
    assert_eq!(first, second);
    assert_eq!(
        first,
        vec![
            "group growth-signals | Growth Signals | Behavioral intent data sourced daily from internet traffic",
            "group IAB1 | IAB Category 1 | IAB OpenRTB 2.4 category 1",
            "leaf signals | IAB1_a | None | Latest",
            "end",
            "group IAB9 | Nine | IAB OpenRTB 2.4 category 9",
            "leaf signals | IAB9-c | None | Latest",
            "end",
            "end",
        ]
    );
}

#[test]
fn order_of_distinct_entries_does_not_matter() {
    let one = build(vec![select("IAB2-a", "a"), select("IAB1-b", "b"), select("IAB2-c", "c")], &[]);
    let two = build(vec![select("IAB2-c", "c"), select("IAB2-a", "a"), select("IAB1-b", "b")], &[]);
    let mut first = Vec::new();
    flat(&one, &mut first);
    let mut second = Vec::new();
    flat(&two, &mut second);
    assert_eq!(first, second);
}

#[test]
fn aggregate_then_materialize_is_run() {
    let t = table(vec![select("IAB5-x", "x"), select("IAB4-y", "y")]);
    let l = lookup(&[("IAB4", "Four")]);
    let cats = aggregate(&t.selects);
    assert_eq!(cats.len(), 2);
    assert_eq!(cats.get(0).key, 4);
    assert_eq!(cats.get(1).key, 5);
    let mut first = Vec::new();
    flat(&materialize("signals", &cats, &l), &mut first);
    let mut second = Vec::new();
    flat(&args().run(&t, &l), &mut second);
    assert_eq!(first, second);
}

#[test]
fn categories_insert_groups_by_key() {
    let mut c = Categories::new();
    assert_eq!(c.len(), 0);
    c.insert(5, "b".to_string(), "IAB5-b".to_string());
    c.insert(3, "a".to_string(), "IAB3-a".to_string());
    c.insert(5, "a".to_string(), "IAB5-a".to_string());
    c.insert(5, "b".to_string(), "IAB5_b".to_string());
    assert_eq!(c.len(), 2);
    assert_eq!(c.get(0).key, 3);
    assert_eq!(c.get(1).key, 5);
    let e = &c.get(1).entries;
    assert_eq!(e.len(), 2);
    assert_eq!(e.key_at(0), "a");
    assert_eq!(e.value_at(0), "IAB5-a");
    assert_eq!(e.key_at(1), "b");
    assert_eq!(e.value_at(1), "IAB5_b");
}

#[test]
fn string_map_keeps_keys_in_order() {
    let mut m = StringMap::new();
    assert_eq!(m.len(), 0);
    assert_eq!(m.get("a"), None);
    m.insert("pear".to_string(), "1".to_string());
    m.insert("apple".to_string(), "2".to_string());
    m.insert("zebra".to_string(), "3".to_string());
    m.insert("Pear".to_string(), "4".to_string());
    m.insert("pear".to_string(), "5".to_string());
    assert_eq!(m.len(), 4);
    let keys: Vec<&str> = (0..m.len()).map(|i| m.key_at(i).as_str()).collect();
    assert_eq!(keys, vec!["Pear", "apple", "pear", "zebra"]);
    assert_eq!(m.get("pear"), Some(&"5".to_string()));
    assert_eq!(m.get("Pear"), Some(&"4".to_string()));
    assert_eq!(m.get("pea"), None);
    assert_eq!(m.get("pears"), None);
    assert_eq!(m.get("zz"), None);
}
