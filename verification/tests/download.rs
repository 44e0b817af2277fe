use dryve::download::{collect_tasks, confirm_url_with_flags, download_url, extract_confirm_url, is_html_content};
use dryve::node::{Node, NodeType};

fn file(name: &str, id: Option<&str>) -> Node {
    Node::new(name.to_string(), NodeType::File, id.map(|s| s.to_string()))
}

fn folder(name: &str, children: Vec<Node>) -> Node {
    let mut n = Node::new(name.to_string(), NodeType::Folder, Some(format!("{}-id", name)));
    n.children = children;
    n
}

#[test]
fn confirm_url_with_token() {
    let html = "<a href=\"/uc?export=download&amp;confirm=AbC_1-x&amp;id=42\">";
    assert_eq!(
        extract_confirm_url(html, "42"),
        "https://drive.google.com/uc?export=download&id=42&confirm=AbC_1-x"
    );
}

#[test]
fn confirm_url_without_token() {
    assert_eq!(
        extract_confirm_url("<html>no token here</html>", "id9"),
        "https://drive.google.com/uc?export=download&id=id9&confirm=t"
    );
}

#[test]
fn confirm_url_token_reaching_the_end() {
    // Nothing ends the token: the default is used.
    assert_eq!(
        extract_confirm_url("confirm=abc", "x"),
        "https://drive.google.com/uc?export=download&id=x&confirm=t"
    );
}

#[test]
fn plain_download_url() {
    assert_eq!(download_url("abc"), "https://drive.google.com/uc?export=download&id=abc");
}

#[test]
fn html_content_types() {
    assert!(is_html_content("text/html; charset=utf-8"));
    assert!(!is_html_content("application/octet-stream"));
    assert!(!is_html_content(""));
}

#[test]
fn tasks_and_folders_of_a_tree() {
    let tree = folder(
        "root",
        vec![
            file("a.txt", Some("ida")),
            folder("sub", vec![file("b.txt", Some("idb")), file("noid.txt", None)]),
        ],
    );
    let mut tasks = Vec::new();
    let mut dirs = Vec::new();
    collect_tasks(&tree, &vec!["base".to_string()], &mut tasks, &mut dirs);
    assert_eq!(tasks.len(), 2);
    assert_eq!(tasks[0].id, "ida");
    assert_eq!(tasks[0].name, "a.txt");
    assert_eq!(tasks[0].path, vec!["base", "root", "a.txt"]);
    assert_eq!(tasks[1].path, vec!["base", "root", "sub", "b.txt"]);
    assert_eq!(dirs, vec![vec!["base".to_string(), "root".to_string()], vec!["base".to_string(), "root".to_string(), "sub".to_string()]]);
}

#[test]
fn single_file_task() {
    let mut tasks = Vec::new();
    let mut dirs = Vec::new();
    collect_tasks(&file("f", Some("i")), &Vec::new(), &mut tasks, &mut dirs);
    assert_eq!(tasks.len(), 1);
    assert_eq!(tasks[0].path, vec!["f"]);
    assert!(dirs.is_empty());
}

#[test]
fn confirm_token_with_unicode_letters() {
    assert_eq!(
        extract_confirm_url("x confirm=abé9&next", "f"),
        "https://drive.google.com/uc?export=download&id=f&confirm=abé9"
    );
}

#[test]
fn confirm_url_from_given_flags() {
    let html = "confirm=abcd";
    // Only the first two token characters count as token characters here.
    let flags = vec![true, true, true, true, true, true, true, true, true, true, false, false];
    assert_eq!(
        confirm_url_with_flags(html, "z", &flags),
        "https://drive.google.com/uc?export=download&id=z&confirm=ab"
    );
}

#[test]
fn planned_paths_use_local_names() {
    let tree = folder("a:b", vec![file("x/y.txt", Some("idx")), folder("c*d", vec![file("e?.bin", Some("ide"))])]);
    let mut tasks = Vec::new();
    let mut dirs = Vec::new();
    collect_tasks(&tree, &Vec::new(), &mut tasks, &mut dirs);
    assert_eq!(tasks.len(), 2);
    // The drive name is kept; the local path uses the sanitized name.
    assert_eq!(tasks[0].name, "x/y.txt");
    assert_eq!(tasks[0].path, vec!["a_b", "x_y.txt"]);
    assert_eq!(tasks[1].path, vec!["a_b", "c_d", "e_.bin"]);
    assert_eq!(dirs, vec![vec!["a_b".to_string()], vec!["a_b".to_string(), "c_d".to_string()]]);
}

#[test]
fn special_names_stay_inside_their_folder() {
    let tree = folder("..", vec![file("", Some("e")), file(".", Some("d"))]);
    let mut tasks = Vec::new();
    let mut dirs = Vec::new();
    collect_tasks(&tree, &vec!["base".to_string()], &mut tasks, &mut dirs);
    assert_eq!(dirs, vec![vec!["base".to_string(), "__".to_string()]]);
    assert_eq!(tasks[0].path, vec!["base", "__", "_"]);
    assert_eq!(tasks[1].path, vec!["base", "__", "_"]);
    assert_eq!(tasks[1].name, ".");
}
