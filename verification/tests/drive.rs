use dryve::drive::{adopt_children, folder_id_from_url, folder_url, folders_to_fetch};
use dryve::node::{Node, NodeType};

#[test]
fn folder_id_from_share_link() {
    assert_eq!(
        folder_id_from_url("https://drive.google.com/drive/folders/1AbCdEf?usp=sharing").as_deref(),
        Some("1AbCdEf")
    );
    assert_eq!(
        folder_id_from_url("https://drive.google.com/drive/u/0/folders/XYZ/view").as_deref(),
        Some("XYZ")
    );
    assert_eq!(folder_id_from_url("https://drive.google.com/drive/folders/").as_deref(), Some(""));
}

#[test]
fn folder_id_missing() {
    assert_eq!(folder_id_from_url("https://example.com/file/abc"), None);
}

#[test]
fn folder_url_round_trip() {
    let url = folder_url("abc_123");
    assert_eq!(url, "https://drive.google.com/drive/folders/abc_123?hl=en");
    assert_eq!(folder_id_from_url(&url).as_deref(), Some("abc_123"));
}

#[test]
fn adopted_children_replace_the_old_ones() {
    let mut folder = Node::new("f".to_string(), NodeType::Folder, Some("fid".to_string()));
    let mut listing = Node::new("ignored".to_string(), NodeType::Folder, None);
    listing.children.push(Node::new("x".to_string(), NodeType::File, Some("xid".to_string())));
    adopt_children(&mut folder, listing);
    assert_eq!(folder.name, "f");
    assert_eq!(folder.id.as_deref(), Some("fid"));
    assert_eq!(folder.children.len(), 1);
    assert_eq!(folder.children[0].name, "x");
}

#[test]
fn folders_fetched_next() {
    let mut root = Node::new("root".to_string(), NodeType::Folder, Some("r".to_string()));
    root.children = vec![
        Node::new("f".to_string(), NodeType::File, Some("1".to_string())),
        Node::new("d".to_string(), NodeType::Folder, Some("2".to_string())),
        Node::new("noid".to_string(), NodeType::Folder, None),
        Node::new("e".to_string(), NodeType::Folder, Some("3".to_string())),
    ];
    assert_eq!(folders_to_fetch(&root), vec![(1, "2".to_string()), (3, "3".to_string())]);
    assert!(folders_to_fetch(&Node::new("x".to_string(), NodeType::File, None)).is_empty());
}
