use dryve::cmd_sync::SyncPlan;
use dryve::node::{copy_node, Diff, Node, NodeType};

fn file(name: &str, id: &str) -> Node {
    Node::new(name.to_string(), NodeType::File, Some(id.to_string()))
}

fn folder(name: &str, children: Vec<Node>) -> Node {
    let mut n = Node::new(name.to_string(), NodeType::Folder, Some(format!("{}-id", name)));
    n.children = children;
    n
}

fn p(parts: &[&str]) -> Vec<String> {
    parts.iter().map(|s| s.to_string()).collect()
}

#[test]
fn diff_of_identical_trees_is_empty() {
    let t = folder("root", vec![file("a", "1"), folder("sub", vec![file("b", "2")])]);
    let d = Diff::from_nodes(&t, &copy_node(&t));
    assert!(d.added.is_empty());
    assert!(d.removed.is_empty());
    assert!(d.updated.is_empty());
}

#[test]
fn diff_finds_added_removed_updated() {
    let old = folder("root", vec![file("a", "1"), file("gone", "2"), folder("sub", vec![file("b", "3")])]);
    let new = folder("root", vec![file("a", "1b"), folder("sub", vec![file("b", "3"), file("c", "4")]), file("new", "5")]);
    let d = Diff::from_nodes(&old, &new);
    assert_eq!(d.updated.len(), 1);
    assert_eq!(d.updated[0].0, p(&["a"]));
    assert_eq!(d.updated[0].1.id.as_deref(), Some("1"));
    assert_eq!(d.updated[0].2.id.as_deref(), Some("1b"));
    assert_eq!(d.added.len(), 2);
    assert_eq!(d.added[0].0, p(&["sub", "c"]));
    assert_eq!(d.added[1].0, p(&["new"]));
    assert_eq!(d.removed.len(), 1);
    assert_eq!(d.removed[0].0, p(&["gone"]));
    assert_eq!(d.removed[0].1.name, "gone");
}

#[test]
fn diff_type_change_is_removal_and_addition() {
    let old = folder("root", vec![folder("x", vec![file("inner", "1")])]);
    let new = folder("root", vec![file("x", "2")]);
    let d = Diff::from_nodes(&old, &new);
    assert_eq!(d.removed.len(), 1);
    assert!(matches!(d.removed[0].1.node_type, NodeType::Folder));
    assert_eq!(d.added.len(), 1);
    assert!(matches!(d.added[0].1.node_type, NodeType::File));
    assert!(d.updated.is_empty());
}

#[test]
fn diff_paths_use_sanitized_names() {
    let old = folder("root", vec![]);
    let new = folder("root", vec![file("a:b?c", "1")]);
    let d = Diff::from_nodes(&old, &new);
    assert_eq!(d.added[0].0, p(&["a_b_c"]));
    assert_eq!(d.added[0].1.name, "a:b?c");
}

#[test]
fn diff_from_empty_folder_adds_everything() {
    let old = folder("root", vec![]);
    let new = folder("root", vec![file("a", "1"), folder("d", vec![file("b", "2")])]);
    let d = Diff::from_nodes(&old, &new);
    assert_eq!(d.added.len(), 2);
    assert_eq!(d.added[0].0, p(&["a"]));
    assert_eq!(d.added[1].0, p(&["d"]));
    assert!(d.removed.is_empty());
}

#[test]
fn diff_duplicate_new_names() {
    // The second new child of a name finds no old child left.
    let old = folder("root", vec![file("a", "1")]);
    let new = folder("root", vec![file("a", "1"), file("a", "9")]);
    let d = Diff::from_nodes(&old, &new);
    assert!(d.updated.is_empty());
    assert_eq!(d.added.len(), 1);
    assert_eq!(d.added[0].1.id.as_deref(), Some("9"));
}

#[test]
fn diff_duplicate_old_names_use_the_last() {
    let old = folder("root", vec![file("a", "1"), file("a", "2")]);
    let new = folder("root", vec![file("a", "2")]);
    let d = Diff::from_nodes(&old, &new);
    assert!(d.updated.is_empty());
    assert!(d.added.is_empty());
    assert!(d.removed.is_empty());
}

#[test]
fn empty_diff_plans_nothing() {
    let d = Diff::new();
    let plan = SyncPlan::from_diff(&d);
    assert!(plan.is_empty());
    assert!(plan.dirs.is_empty());
}

#[test]
fn plan_from_diff() {
    let old = folder("root", vec![file("a", "1"), file("gone", "2")]);
    let new = folder("root", vec![file("a", "1b"), folder("d", vec![file("b", "3")])]);
    let d = Diff::from_nodes(&old, &new);
    let plan = SyncPlan::from_diff(&d);
    assert!(!plan.is_empty());
    assert_eq!(plan.added.len(), 1);
    assert_eq!(plan.added[0].path, p(&["d", "b"]));
    assert_eq!(plan.dirs, vec![p(&["d"])]);
    assert_eq!(plan.updated.len(), 1);
    assert_eq!(plan.updated[0].id, "1b");
    assert_eq!(plan.updated[0].path, p(&["a"]));
    assert_eq!(plan.removed.len(), 1);
    assert_eq!(plan.removed[0].path, p(&["gone"]));
}

#[test]
fn tree_lines_draw_branches() {
    let t = folder("root", vec![folder("d", vec![file("x", "1")]), file("y", "2")]);
    let lines = t.tree_lines();
    let rendered: Vec<String> = lines
        .iter()
        .map(|l| format!("{}{}{}", l.prefix, l.connector.unwrap_or(""), l.name))
        .collect();
    assert_eq!(rendered, vec!["root", "├── d", "│   └── x", "└── y"]);
}

#[test]
fn copies_are_equal_trees() {
    let t = folder("root", vec![file("a", "1")]);
    let c = copy_node(&t);
    assert_eq!(c.name, "root");
    assert_eq!(c.children.len(), 1);
    assert_eq!(c.children[0].id.as_deref(), Some("1"));
}

#[test]
fn plan_paths_match_diff_paths_for_unsafe_names() {
    let old = folder("root", vec![file("x:y", "1")]);
    let new = folder("root", vec![file("x:y", "1b"), folder("d/e", vec![file("f*g", "3")])]);
    let d = Diff::from_nodes(&old, &new);
    assert_eq!(d.added.len(), 1);
    assert_eq!(d.added[0].0, p(&["d_e"]));
    assert_eq!(d.updated.len(), 1);
    assert_eq!(d.updated[0].0, p(&["x_y"]));
    let plan = SyncPlan::from_diff(&d);
    assert_eq!(plan.dirs, vec![p(&["d_e"])]);
    assert_eq!(plan.added.len(), 1);
    assert_eq!(plan.added[0].path, p(&["d_e", "f_g"]));
    assert_eq!(plan.updated[0].path, p(&["x_y"]));
    assert_eq!(plan.updated[0].name, "x:y");
}

#[test]
fn diff_read_backwards() {
    let a = folder("root", vec![file("a", "1"), file("gone", "2"), folder("sub", vec![file("b", "3")]), file("mix", "6")]);
    let b = folder("root", vec![file("a", "1b"), folder("sub", vec![file("b", "3"), file("c", "4")]), file("new", "5"), folder("mix", vec![])]);
    let fwd = Diff::from_nodes(&a, &b);
    let back = Diff::from_nodes(&b, &a);
    let names = |v: &Vec<(Vec<String>, Node)>| {
        let mut out: Vec<(Vec<String>, String)> = v.iter().map(|(p, n)| (p.clone(), n.name.clone())).collect();
        out.sort();
        out
    };
    assert_eq!(names(&back.added), names(&fwd.removed));
    assert_eq!(names(&back.removed), names(&fwd.added));
    assert_eq!(fwd.added.len(), 3);
    assert_eq!(fwd.removed.len(), 2);
    assert_eq!(fwd.updated.len(), 1);
    assert_eq!(back.updated.len(), 1);
    assert_eq!(fwd.updated[0].0, back.updated[0].0);
    assert_eq!(fwd.updated[0].1.id, back.updated[0].2.id);
    assert_eq!(fwd.updated[0].2.id, back.updated[0].1.id);
}
