use dryve::cmd_sync::sync_rows;
use dryve::download::collect_tasks;
use dryve::node::{Diff, Node, NodeType};
use dryve::selector::{
    build_items, check_state, descendants, dirs_to_create, path_holds, selected_tasks, status_bar, toggle, trunc, Check,
    ItemKind, KeyInput, SelectorEvent, SelectorState, Selection, Step,
};

fn file(name: &str) -> Node {
    Node::new(name.to_string(), NodeType::File, Some(format!("{}-id", name)))
}

fn folder(name: &str, children: Vec<Node>) -> Node {
    let mut n = Node::new(name.to_string(), NodeType::Folder, Some(format!("{}-id", name)));
    n.children = children;
    n
}

fn sample() -> Vec<(Node, Vec<String>, ItemKind)> {
    vec![(
        folder("root", vec![folder("d", vec![file("x"), file("y")]), file("z")]),
        Vec::new(),
        ItemKind::Normal,
    )]
}

#[test]
fn trunc_cuts_by_characters() {
    assert_eq!(trunc("hello", 3), "hel");
    assert_eq!(trunc("hi", 5), "hi");
    assert_eq!(trunc("héllo", 2), "hé");
    assert_eq!(trunc("abc", 0), "");
}

#[test]
fn items_flatten_the_tree() {
    let items = build_items(&sample());
    let names: Vec<&str> = items.iter().map(|i| i.name.as_str()).collect();
    assert_eq!(names, vec!["root", "d", "x", "y", "z"]);
    let depths: Vec<usize> = items.iter().map(|i| i.depth).collect();
    assert_eq!(depths, vec![0, 1, 2, 2, 1]);
    assert_eq!(items[2].path, vec!["root", "d", "x"]);
    assert_eq!(items[2].prefix, "    │   ");
    assert!(items[4].is_last);
    assert!(!items[1].is_last);
}

#[test]
fn descendants_of_a_folder() {
    let items = build_items(&sample());
    assert_eq!(descendants(&items, 0), vec![1, 2, 3, 4]);
    assert_eq!(descendants(&items, 1), vec![2, 3]);
    assert_eq!(descendants(&items, 2), Vec::<usize>::new());
}

#[test]
fn toggling_a_folder_and_its_state() {
    let items = build_items(&sample());
    let mut sel = Selection::new();
    assert!(matches!(check_state(&items, 0, &sel), Check::Empty));
    toggle(&items, 1, &mut sel);
    assert_eq!(sel.len(), 2);
    assert!(matches!(check_state(&items, 1, &sel), Check::Full));
    assert!(matches!(check_state(&items, 0, &sel), Check::Partial));
    toggle(&items, 1, &mut sel);
    assert_eq!(sel.len(), 0);
    assert!(matches!(check_state(&items, 1, &sel), Check::Empty));
}

#[test]
fn toggling_a_file() {
    let items = build_items(&sample());
    let mut sel = Selection::new();
    toggle(&items, 4, &mut sel);
    assert!(sel.contains(&vec!["root".to_string(), "z".to_string()]));
    assert!(matches!(check_state(&items, 4, &sel), Check::Full));
    toggle(&items, 4, &mut sel);
    assert!(!sel.contains(&vec!["root".to_string(), "z".to_string()]));
}

#[test]
fn folder_of_empty_folders() {
    let roots = vec![(folder("top", vec![folder("e1", vec![]), folder("e2", vec![])]), Vec::new(), ItemKind::Added)];
    let items = build_items(&roots);
    let mut sel = Selection::new();
    assert!(matches!(check_state(&items, 0, &sel), Check::Empty));
    sel.insert(&items[1].path);
    assert!(matches!(check_state(&items, 0, &sel), Check::Partial));
    sel.insert(&items[2].path);
    assert!(matches!(check_state(&items, 0, &sel), Check::Full));
}

#[test]
fn selector_starts_with_all_files() {
    let state = SelectorState::new(build_items(&sample()));
    assert_eq!(state.selected.len(), 3);
    assert_eq!(state.cursor, 0);
}

#[test]
fn selector_keys() {
    let mut state = SelectorState::new(build_items(&sample()));
    assert_eq!(state.handle(SelectorEvent::Key(KeyInput::Up, false), 10), Step::Idle);
    assert_eq!(state.handle(SelectorEvent::Key(KeyInput::Char('j'), false), 10), Step::Redraw);
    assert_eq!(state.cursor, 1);
    assert_eq!(state.handle(SelectorEvent::Key(KeyInput::Char(' '), false), 10), Step::Redraw);
    assert_eq!(state.selected.len(), 1);
    assert_eq!(state.handle(SelectorEvent::Key(KeyInput::Char('a'), false), 10), Step::Redraw);
    assert_eq!(state.selected.len(), 3);
    assert_eq!(state.handle(SelectorEvent::Key(KeyInput::Char('a'), false), 10), Step::Redraw);
    assert_eq!(state.selected.len(), 0);
    assert_eq!(state.handle(SelectorEvent::Resize, 10), Step::Redraw);
    assert_eq!(state.handle(SelectorEvent::Key(KeyInput::Char('x'), false), 10), Step::Idle);
    assert_eq!(state.handle(SelectorEvent::Key(KeyInput::Enter, false), 10), Step::Confirm);
    assert_eq!(state.handle(SelectorEvent::Key(KeyInput::Char('c'), true), 10), Step::Cancel);
    assert_eq!(state.handle(SelectorEvent::Key(KeyInput::Esc, false), 10), Step::Cancel);
    assert_eq!(state.handle(SelectorEvent::Key(KeyInput::Char('q'), false), 10), Step::Cancel);
}

#[test]
fn selector_scrolls_with_cursor() {
    let mut state = SelectorState::new(build_items(&sample()));
    for _ in 0..4 {
        state.handle(SelectorEvent::Key(KeyInput::Down, false), 2);
    }
    assert_eq!(state.cursor, 4);
    assert_eq!(state.scroll, 3);
    assert_eq!(state.handle(SelectorEvent::Key(KeyInput::Down, false), 2), Step::Idle);
    for _ in 0..4 {
        state.handle(SelectorEvent::Key(KeyInput::Char('k'), false), 2);
    }
    assert_eq!(state.cursor, 0);
    assert_eq!(state.scroll, 0);
}

#[test]
fn status_bar_layout() {
    let bar = status_bar(2, 5, 80);
    assert_eq!(bar.chars().count(), 80);
    assert!(bar.starts_with("  [Space] Toggle"));
    assert!(bar.ends_with("  2/5 selected  "));
    let narrow = status_bar(2, 5, 10);
    assert_eq!(narrow, "  [Space] ");
}

#[test]
fn frame_rows_and_hint() {
    let state = SelectorState::new(build_items(&sample()));
    let frame = state.frame(40, 4);
    assert_eq!(frame.rows.len(), 3);
    assert!(frame.rows[0].is_cursor);
    assert_eq!(frame.rows[0].check_symbol, "[x]");
    assert_eq!(frame.rows[1].connector, "├── ");
    assert_eq!(frame.hint, Some((35, " 1/5 ".to_string())));
    assert!(frame.status.chars().count() <= 40);
    let tall = state.frame(40, 20);
    assert_eq!(tall.rows.len(), 5);
    assert_eq!(tall.hint, None);
}

#[test]
fn only_selected_tasks_are_kept() {
    let roots = sample();
    let items = build_items(&roots);
    let mut tasks = Vec::new();
    let mut dirs = Vec::new();
    collect_tasks(&roots[0].0, &Vec::new(), &mut tasks, &mut dirs);
    assert_eq!(tasks.len(), 3);
    // Everything is selected at first: every task is kept.
    let state = SelectorState::new(build_items(&roots));
    assert_eq!(selected_tasks(&tasks, &state.selected).len(), 3);
    // Deselecting the folder `d` keeps only `z`.
    let mut sel = state.selected;
    toggle(&items, 1, &mut sel);
    let kept = selected_tasks(&tasks, &sel);
    assert_eq!(kept.len(), 1);
    assert_eq!(kept[0].path, vec!["root", "z"]);
    // Nothing selected: nothing kept.
    assert!(selected_tasks(&tasks, &Selection::new()).is_empty());
}

#[test]
fn sync_rows_list_changes() {
    let old = folder("root", vec![file("a"), file("gone")]);
    let mut new = folder("root", vec![file("a"), folder("d", vec![file("b")])]);
    new.children[0].id = Some("a-id-2".to_string());
    let d = Diff::from_nodes(&old, &new);
    let rows = sync_rows(&d);
    let summary: Vec<(String, Vec<String>, ItemKind)> =
        rows.iter().map(|(n, p, k)| (n.name.clone(), p.clone(), *k)).collect();
    assert_eq!(
        summary,
        vec![
            ("d".to_string(), Vec::<String>::new(), ItemKind::Added),
            ("a".to_string(), Vec::<String>::new(), ItemKind::Modified),
            ("gone".to_string(), Vec::<String>::new(), ItemKind::Removed),
        ]
    );
    let items = build_items(&rows);
    let names: Vec<&str> = items.iter().map(|i| i.name.as_str()).collect();
    assert_eq!(names, vec!["d", "b", "a", "gone"]);
    assert_eq!(items[1].path, vec!["d", "b"]);
}

#[test]
fn folders_created_for_chosen_files() {
    let roots = vec![(
        folder("root", vec![folder("d", vec![file("x")]), folder("e", vec![file("y")]), folder("empty", vec![])]),
        Vec::new(),
        ItemKind::Normal,
    )];
    let items = build_items(&roots);
    let mut tasks = Vec::new();
    let mut dirs = Vec::new();
    collect_tasks(&roots[0].0, &Vec::new(), &mut tasks, &mut dirs);
    let mut sel = SelectorState::new(build_items(&roots)).selected;
    // Leave out the folder `e`.
    toggle(&items, 3, &mut sel);
    let chosen = selected_tasks(&tasks, &sel);
    assert_eq!(chosen.len(), 1);
    let made = dirs_to_create(&dirs, &tasks, &chosen);
    let p = |v: &[&str]| v.iter().map(|s| s.to_string()).collect::<Vec<String>>();
    assert_eq!(made, vec![p(&["root"]), p(&["root", "d"]), p(&["root", "empty"])]);
    // Nothing chosen: only the folder without files.
    assert_eq!(dirs_to_create(&dirs, &tasks, &Vec::new()), vec![p(&["root", "empty"])]);
}

#[test]
fn folder_holds_paths_below_it() {
    let p = |v: &[&str]| v.iter().map(|s| s.to_string()).collect::<Vec<String>>();
    assert!(path_holds(&p(&["a"]), &p(&["a", "b"])));
    assert!(path_holds(&p(&[]), &p(&["a"])));
    assert!(!path_holds(&p(&["a"]), &p(&["a"])));
    assert!(!path_holds(&p(&["a", "c"]), &p(&["a", "b", "c"])));
}
