use dryve::node::NodeType;
use dryve::parser::{decode_drive_data, hex_pair_exec, page_is_sliceable, parse_html, parse_listing};

fn page(title: &str, raw: &str) -> String {
    format!(
        "<html><head><title>{}</title></head><body><script>window['_DRIVE_ivd'] = '{}';</script></body></html>",
        title, raw
    )
}

#[test]
fn decode_hex_escapes() {
    assert_eq!(decode_drive_data("\\x22abc\\x22"), b"\"abc\"".to_vec());
    assert_eq!(decode_drive_data("\\x41\\x4a\\x4A"), b"AJJ".to_vec());
}

#[test]
fn decode_quote_and_slash_escapes() {
    assert_eq!(decode_drive_data("a\\\"b\\/c"), b"a\"b/c".to_vec());
}

#[test]
fn decode_keeps_other_backslashes() {
    assert_eq!(decode_drive_data("a\\nb"), b"a\\nb".to_vec());
    assert_eq!(decode_drive_data("\\xZZ"), b"\\xZZ".to_vec());
    assert_eq!(decode_drive_data("\\x4"), b"\\x4".to_vec());
    assert_eq!(decode_drive_data("end\\"), b"end\\".to_vec());
}

#[test]
fn decode_plus_sign_escape() {
    // u8::from_str_radix accepts a leading '+'.
    assert_eq!(decode_drive_data("\\x+f"), vec![15u8]);
}

#[test]
fn decode_raw_high_bytes() {
    assert_eq!(decode_drive_data("\\xff"), vec![0xffu8]);
}

#[test]
fn decode_plain_text_unchanged() {
    assert_eq!(decode_drive_data("plain text, no escapes"), b"plain text, no escapes".to_vec());
}

#[test]
fn hex_pairs() {
    assert_eq!(hex_pair_exec(b'4', b'1'), Some(0x41));
    assert_eq!(hex_pair_exec(b'f', b'F'), Some(0xff));
    assert_eq!(hex_pair_exec(b'+', b'7'), Some(7));
    assert_eq!(hex_pair_exec(b'g', b'1'), None);
    assert_eq!(hex_pair_exec(b'-', b'1'), None);
}

#[test]
fn title_without_suffix() {
    let root = parse_html(&page("My Folder - Google Drive", ""));
    assert_eq!(root.name, "My Folder");
    assert!(matches!(root.node_type, NodeType::Folder));
    assert!(root.id.is_none());
    assert!(root.children.is_empty());
}

#[test]
fn missing_title_gives_default_name() {
    let root = parse_html("<html><body>nothing</body></html>");
    assert_eq!(root.name, "GDrive Folder");
    assert!(root.children.is_empty());
}

#[test]
fn unclosed_title_gives_default_name() {
    let root = parse_html("<title>Half open");
    assert_eq!(root.name, "GDrive Folder");
}

#[test]
fn listing_entries_become_children() {
    let raw = "[[[\\x22abcdefghij1234\\x22,[\\x22parent\\x22],\\x22file.txt\\x22,\\x22text/plain\\x22],[\\x22folderid12345\\x22,[\\x22p\\x22,[1,2]],\\x22Docs\\x22,\\x22application/vnd.google-apps.folder\\x22]]]";
    let root = parse_html(&page("Shared - Google Drive", raw));
    assert_eq!(root.name, "Shared");
    assert_eq!(root.children.len(), 2);
    assert_eq!(root.children[0].name, "file.txt");
    assert!(matches!(root.children[0].node_type, NodeType::File));
    assert_eq!(root.children[0].id.as_deref(), Some("abcdefghij1234"));
    assert!(root.children[0].children.is_empty());
    assert_eq!(root.children[1].name, "Docs");
    assert!(matches!(root.children[1].node_type, NodeType::Folder));
    assert_eq!(root.children[1].id.as_deref(), Some("folderid12345"));
}

#[test]
fn short_ids_are_skipped() {
    let data = "[[\"short\",[\"x\"],\"skipped.txt\",\"text/plain\"],[\"longenoughid\",[\"x\"],\"kept.txt\",\"text/plain\"]]";
    let children = parse_listing(data);
    assert_eq!(children.len(), 1);
    assert_eq!(children[0].name, "kept.txt");
}

#[test]
fn duplicate_names_keep_the_first() {
    let data = "[[\"firstid12345\",[],\"same.txt\",\"text/plain\"],[\"secondid1234\",[],\"same.txt\",\"text/plain\"]]";
    let children = parse_listing(data);
    assert_eq!(children.len(), 1);
    assert_eq!(children[0].id.as_deref(), Some("firstid12345"));
}

#[test]
fn mime_names_and_empty_names_are_skipped() {
    let data = "[[\"abcdefghijkl\",[],\"application/pdf\",\"x\"],[\"abcdefghijkm\",[],\"\",\"x\"],[\"abcdefghijkn\",[],\"ok\",\"x\"]]";
    let children = parse_listing(data);
    assert_eq!(children.len(), 1);
    assert_eq!(children[0].name, "ok");
}

#[test]
fn id_length_counts_bytes() {
    // Five two-byte characters make ten bytes.
    let data = "[[\"ééééé\",[],\"accented\",\"text/plain\"]]";
    let children = parse_listing(data);
    assert_eq!(children.len(), 1);
    assert_eq!(children[0].id.as_deref(), Some("ééééé"));
}

#[test]
fn incomplete_entry_is_ignored() {
    let children = parse_listing("[\"abcdefghijkl\",[\"unclosed");
    assert!(children.is_empty());
}

#[test]
fn page_slicing_condition() {
    assert!(page_is_sliceable(&page("t", "\\x41\\x42")));
    assert!(!page_is_sliceable(&page("t", "\\x4€")));
    assert!(page_is_sliceable("no marker at all"));
}

#[test]
fn invalid_utf8_in_listing_is_replaced() {
    let raw = "[[\\x22abcdefghijkl\\x22,[],\\x22bad\\xffname\\x22,\\x22text/plain\\x22]]";
    let root = parse_html(&page("t", raw));
    assert_eq!(root.children.len(), 1);
    assert_eq!(root.children[0].name, "bad\u{FFFD}name");
}
