use vstd::prelude::*;
use vstd::utf8::*;
use vstd::string::StringSliceAdditionalSpecFns;

use crate::node::{leaf_model, models, lemma_models, Node, NodeModel, NodeType};
use crate::text::{utf8_len, utf8_len_at_least, sub_is, sub_starts_with, find_from, find_char_from, lemma_find_from, lemma_find_char_from, replace_all, chars_of, string_of, slice_chars, find_seq, find_char, matches_at, replace_all_exec, replace_absent, remove_single_suffix};

verus! {

broadcast use vstd::string::group_string_axioms;

// ---------------------------------------------------------------------------
// Escaped listing data: `\xHH`, `\"` and `\/` escapes inside the raw string.
// ---------------------------------------------------------------------------

pub open spec fn is_hex_digit(b: u8) -> bool {
    (48 <= b <= 57) || (65 <= b <= 70) || (97 <= b <= 102)
}

pub open spec fn hex_value(b: u8) -> int {
    if 48 <= b <= 57 {
        b - 48
    } else if 65 <= b <= 70 {
        b - 55
    } else {
        b - 87
    }
}

/// The byte that `u8::from_str_radix` reads, in base 16, from the two-byte
/// string `a b`: an optional `+` followed by hexadecimal digits.
pub open spec fn hex_pair(a: u8, b: u8) -> Option<u8> {
    if a == 43 && is_hex_digit(b) {
        Some(hex_value(b) as u8)
    } else if is_hex_digit(a) && is_hex_digit(b) {
        Some((hex_value(a) * 16 + hex_value(b)) as u8)
    } else {
        None
    }
}

/// The bytes that the escaped data `b[i..]` stands for.
pub open spec fn decode_from(b: Seq<u8>, i: int) -> Seq<u8>
    decreases b.len() - i,
{
    if i < 0 || i >= b.len() {
        Seq::empty()
    } else if b[i] == 92 && i + 3 < b.len() && b[i + 1] == 120 && hex_pair(b[i + 2], b[i + 3]) is Some {
        seq![hex_pair(b[i + 2], b[i + 3])->0] + decode_from(b, i + 4)
    } else if b[i] == 92 && i + 1 < b.len() && (b[i + 1] == 34 || b[i + 1] == 47) {
        seq![b[i + 1]] + decode_from(b, i + 2)
    } else {
        seq![b[i]] + decode_from(b, i + 1)
    }
}

/// The bytes that the escaped data `b` stands for.
pub open spec fn decode_escapes(b: Seq<u8>) -> Seq<u8> {
    decode_from(b, 0)
}

/// Every `\x` escape with two more bytes after it ends on a character
/// boundary of the UTF-8 text `b`, so that its two digit bytes can be read
/// as a string of their own.
pub open spec fn escapes_sliceable(b: Seq<u8>) -> bool {
    forall|i: int|
        0 <= i && i + 3 < b.len() && #[trigger] b[i] == 92 && b[i + 1] == 120 ==> (i + 4 == b.len()
            || !is_continuation_byte(b[i + 4]))
}

fn hex_digit_value(b: u8) -> (res: Option<u8>)
    ensures
        match res {
            Some(v) => is_hex_digit(b) && v == hex_value(b),
            None => !is_hex_digit(b),
        },
{
    if 48 <= b && b <= 57 {
        Some(b - 48)
    } else if 65 <= b && b <= 70 {
        Some(b - 55)
    } else if 97 <= b && b <= 102 {
        Some(b - 87)
    } else {
        None
    }
}

/// Reads the byte written in hexadecimal as the two bytes `a b`.
pub fn hex_pair_exec(a: u8, b: u8) -> (res: Option<u8>)
    ensures
        res == hex_pair(a, b),
{
    match hex_digit_value(b) {
        None => None,
        Some(lo) => {
            if a == 43 {
                Some(lo)
            } else {
                match hex_digit_value(a) {
                    None => None,
                    Some(hi) => Some(hi * 16 + lo),
                }
            }
        },
    }
}

/// Decodes the escapes of the listing data embedded in a drive page.
pub fn decode_drive_data(data: &str) -> (res: Vec<u8>)
    requires
        escapes_sliceable(data.spec_bytes()),
    ensures
        res@ == decode_escapes(data.spec_bytes()),
{
    let bytes = data.as_bytes();
    let ghost b = bytes@;
    let mut decoded: Vec<u8> = Vec::new();
    let mut i: usize = 0;
    while i < bytes.len()
        invariant
            b == bytes@,
            i <= b.len(),
            decode_from(b, 0) == decoded@ + decode_from(b, i as int),
        decreases b.len() - i,
    {
        let ghost old_dec = decoded@;
        if bytes[i] == 92 && bytes.len() - i > 3 && bytes[i + 1] == 120 {
            if let Some(byte) = hex_pair_exec(bytes[i + 2], bytes[i + 3]) {
                decoded.push(byte);
                assert(old_dec + (seq![byte] + decode_from(b, i + 4)) =~= decoded@ + decode_from(
                    b,
                    i + 4,
                ));
                i = i + 4;
                continue;
            }
        }
        if bytes[i] == 92 && bytes.len() - i > 1 && (bytes[i + 1] == 34 || bytes[i + 1] == 47) {
            let next = bytes[i + 1];
            decoded.push(next);
            assert(old_dec + (seq![next] + decode_from(b, i + 2)) =~= decoded@ + decode_from(
                b,
                i + 2,
            ));
            i = i + 2;
            continue;
        }
        let cur = bytes[i];
        decoded.push(cur);
        assert(old_dec + (seq![cur] + decode_from(b, i + 1)) =~= decoded@ + decode_from(b, i + 1));
        i = i + 1;
    }
    assert(decoded@ + decode_from(b, i as int) =~= decoded@);
    decoded
}

// ---------------------------------------------------------------------------
// The page: folder title and raw listing data.
// ---------------------------------------------------------------------------

/// The name of the folder that a drive page shows: the text of its
/// `<title>` without the " - Google Drive" suffix(es).
pub open spec fn title_name(html: Seq<char>) -> Seq<char> {
    match find_from(html, "<title>"@, 0) {
        Some(start) => match find_from(html, "</title>"@, start) {
            Some(end) => replace_all(
                html.subrange(start + 7, end),
                " - Google Drive"@,
                Seq::empty(),
            ),
            None => "GDrive Folder"@,
        },
        None => "GDrive Folder"@,
    }
}

/// Where the raw, escaped listing data lies in a drive page: between the
/// second and the third single quote after the `_DRIVE_ivd` marker.
pub open spec fn raw_region(html: Seq<char>) -> Option<(int, int)> {
    match find_from(html, "_DRIVE_ivd"@, 0) {
        None => None,
        Some(idx) => match find_char_from(html, '\'', idx + 1) {
            None => None,
            Some(q1) => match find_char_from(html, '\'', q1 + 1) {
                None => None,
                Some(q2) => match find_char_from(html, '\'', q2 + 1) {
                    None => None,
                    Some(end) => Some((q2 + 1, end)),
                },
            },
        },
    }
}

/// The decoded listing data of a page, as bytes.
pub open spec fn page_data_bytes(html: Seq<char>) -> Seq<u8>
    recommends
        raw_region(html) is Some,
{
    let (s, e) = raw_region(html)->0;
    decode_escapes(encode_utf8(html.subrange(s, e)))
}

/// A page can be parsed without reading a `\x` escape that splits a character.
pub open spec fn page_sliceable(html: Seq<char>) -> bool {
    match raw_region(html) {
        None => true,
        Some((s, e)) => escapes_sliceable(encode_utf8(html.subrange(s, e))),
    }
}

/// What `String::from_utf8_lossy` makes of a byte sequence.
pub uninterp spec fn lossy_utf8(bytes: Seq<u8>) -> Seq<char>;

/// Calls `String::from_utf8_lossy`. Its result is a function of the bytes
/// alone, named `lossy_utf8`; as its documentation says, valid UTF-8 is
/// decoded unchanged. What it puts in place of invalid sequences is left unsaid.
#[verifier::external_body]
fn utf8_lossy(bytes: &[u8]) -> (res: String)
    ensures
        res@ == lossy_utf8(bytes@),
        valid_utf8(bytes@) ==> res@ == decode_utf8(bytes@),
{
    String::from_utf8_lossy(bytes).into_owned()
}

/// The entries that a drive page lists.
pub open spec fn page_listing(html: Seq<char>) -> Seq<ListedChild> {
    match raw_region(html) {
        None => Seq::empty(),
        Some(_) => listing(lossy_utf8(page_data_bytes(html))),
    }
}

// ---------------------------------------------------------------------------
// The listing: entries `["<id>", [...], "<name>", "<mime type>" ...`.
// ---------------------------------------------------------------------------

/// An entry found in the listing data, before it is accepted.
pub struct ScannedEntry {
    pub id: Seq<char>,
    pub name: Seq<char>,
    pub mime: Seq<char>,
    pub end: int,
}

/// A child that the listing yields: its name, its type and its id.
pub struct ListedChild {
    pub name: Seq<char>,
    pub node_type: NodeType,
    pub id: Seq<char>,
}

/// The position just after the nested array that starts before `p`, with
/// `depth` brackets still open.
pub open spec fn skip_brackets(d: Seq<char>, depth: nat, p: int) -> int
    decreases d.len() - p,
{
    if depth > 0 && 0 <= p < d.len() {
        let nd: nat = if d[p] == '[' {
            depth + 1
        } else if d[p] == ']' {
            (depth - 1) as nat
        } else {
            depth
        };
        skip_brackets(d, nd, p + 1)
    } else {
        p
    }
}

/// Reads the entry whose opening `["` stands at `es`, if it is complete and
/// its id is at least ten bytes long.
pub open spec fn scan_entry(d: Seq<char>, es: int) -> Option<ScannedEntry> {
    match find_char_from(d, '"', es + 2) {
        None => None,
        Some(e1) => {
            let id = d.subrange(es + 2, e1);
            if utf8_len(id) < 10 {
                None
            } else {
                match find_from(d, ",["@, e1) {
                    None => None,
                    Some(pas) => {
                        let pae = skip_brackets(d, 1, pas + 2);
                        match find_char_from(d, '"', pae) {
                            None => None,
                            Some(s2) => match find_char_from(d, '"', s2 + 1) {
                                None => None,
                                Some(e2) => match find_char_from(d, '"', e2 + 1) {
                                    None => None,
                                    Some(s3) => match find_char_from(d, '"', s3 + 1) {
                                        None => None,
                                        Some(e3) => Some(
                                            ScannedEntry {
                                                id,
                                                name: d.subrange(s2 + 1, e2),
                                                mime: d.subrange(s3 + 1, e3),
                                                end: e3,
                                            },
                                        ),
                                    },
                                },
                            },
                        }
                    },
                }
            }
        },
    }
}

/// A listed name becomes a child: it is not empty and is no mime type.
pub open spec fn accepted_name(name: Seq<char>) -> bool {
    name.len() > 0 && !"application/"@.is_prefix_of(name)
}

/// The mime type of drive folders.
pub open spec fn folder_mime() -> Seq<char> {
    "application/vnd.google-apps.folder"@
}

pub open spec fn has_child_named(acc: Seq<ListedChild>, name: Seq<char>) -> bool {
    exists|k: int| 0 <= k < acc.len() && #[trigger] acc[k].name == name
}

/// Adds a scanned entry to the children found so far, unless its name is
/// not accepted or already taken.
pub open spec fn add_entry(acc: Seq<ListedChild>, e: ScannedEntry) -> Seq<ListedChild> {
    if accepted_name(e.name) && !has_child_named(acc, e.name) {
        acc.push(
            ListedChild {
                name: e.name,
                node_type: if e.mime == folder_mime() {
                    NodeType::Folder
                } else {
                    NodeType::File
                },
                id: e.id,
            },
        )
    } else {
        acc
    }
}

pub proof fn lemma_scan_entry_end(d: Seq<char>, es: int)
    requires
        0 <= es,
    ensures
        scan_entry(d, es) matches Some(e) ==> es + 2 <= e.end < d.len(),
{
    lemma_find_char_from(d, '"', es + 2);
    if let Some(e1) = find_char_from(d, '"', es + 2) {
        lemma_find_from(d, ",["@, e1);
        if let Some(pas) = find_from(d, ",["@, e1) {
            let pae = skip_brackets(d, 1, pas + 2);
            lemma_skip_brackets(d, 1, pas + 2);
            lemma_find_char_from(d, '"', pae);
            if let Some(s2) = find_char_from(d, '"', pae) {
                lemma_find_char_from(d, '"', s2 + 1);
                if let Some(e2) = find_char_from(d, '"', s2 + 1) {
                    lemma_find_char_from(d, '"', e2 + 1);
                    if let Some(s3) = find_char_from(d, '"', e2 + 1) {
                        lemma_find_char_from(d, '"', s3 + 1);
                    }
                }
            }
        }
    }
}

pub proof fn lemma_skip_brackets(d: Seq<char>, depth: nat, p: int)
    requires
        0 <= p,
    ensures
        p <= skip_brackets(d, depth, p),
        p <= d.len() ==> skip_brackets(d, depth, p) <= d.len(),
    decreases d.len() - p,
{
    if depth > 0 && 0 <= p < d.len() {
        let nd: nat = if d[p] == '[' {
            depth + 1
        } else if d[p] == ']' {
            (depth - 1) as nat
        } else {
            depth
        };
        lemma_skip_brackets(d, nd, p + 1);
    }
}

/// The children listed in `d` from position `pos` on, after those in `acc`.
pub open spec fn listing_from(d: Seq<char>, pos: int, acc: Seq<ListedChild>) -> Seq<ListedChild>
    decreases d.len() - pos,
{
    if pos < 0 || pos > d.len() {
        acc
    } else {
        match find_from(d, "[\""@, pos) {
            None => acc,
            Some(es) => {
                proof {
                    lemma_find_from(d, "[\""@, pos);
                    reveal_strlit("[\"");
                    assert(pos <= es && es + 2 <= d.len());
                    lemma_scan_entry_end(d, es);
                }
                match scan_entry(d, es) {
                    None => listing_from(d, es + 1, acc),
                    Some(e) => listing_from(d, e.end + 1, add_entry(acc, e)),
                }
            },
        }
    }
}

/// The children that the decoded listing data `d` lists.
pub open spec fn listing(d: Seq<char>) -> Seq<ListedChild> {
    listing_from(d, 0, Seq::empty())
}

/// The node of a listed child: it has its id and no children yet.
pub open spec fn listed_node(c: ListedChild) -> NodeModel {
    leaf_model(c.name, c.node_type, Some(c.id))
}

/// The nodes of listed children.
pub open spec fn listed_nodes(cs: Seq<ListedChild>) -> Seq<NodeModel> {
    cs.map_values(|c: ListedChild| listed_node(c))
}

/// Children as a listing yields them: accepted names, none taken twice,
/// ids of at least ten bytes.
pub open spec fn well_formed_listing(cs: Seq<ListedChild>) -> bool {
    &&& forall|i: int, j: int| 0 <= i < j < cs.len() ==> cs[i].name != cs[j].name
    &&& forall|i: int| 0 <= i < cs.len() ==> accepted_name(#[trigger] cs[i].name)
    &&& forall|i: int| 0 <= i < cs.len() ==> utf8_len(#[trigger] cs[i].id) >= 10
}

proof fn lemma_listing_from_well_formed(d: Seq<char>, pos: int, acc: Seq<ListedChild>)
    requires
        well_formed_listing(acc),
    ensures
        well_formed_listing(listing_from(d, pos, acc)),
    decreases d.len() - pos,
{
    if pos < 0 || pos > d.len() {
    } else {
        match find_from(d, "[\""@, pos) {
            None => {},
            Some(es) => {
                lemma_find_from(d, "[\""@, pos);
                reveal_strlit("[\"");
                lemma_scan_entry_end(d, es);
                match scan_entry(d, es) {
                    None => lemma_listing_from_well_formed(d, es + 1, acc),
                    Some(e) => {
                        let next = add_entry(acc, e);
                        assert(well_formed_listing(next)) by {
                            if accepted_name(e.name) && !has_child_named(acc, e.name) {
                                assert forall|i: int, j: int| 0 <= i < j < next.len() implies next[i].name
                                    != next[j].name by {
                                    if j == acc.len() {
                                        assert(acc[i].name == next[i].name);
                                        if next[i].name == e.name {
                                            assert(has_child_named(acc, e.name));
                                        }
                                    }
                                }
                            }
                        }
                        lemma_listing_from_well_formed(d, e.end + 1, next);
                    },
                }
            },
        }
    }
}

/// Law: the children read from listing data have distinct, non-empty names
/// that are no mime types, and ids of at least ten bytes.
pub proof fn listing_well_formed(d: Seq<char>)
    ensures
        well_formed_listing(listing(d)),
{
    lemma_listing_from_well_formed(d, 0, Seq::empty());
}

/// Whether the child `c` is read from an entry of `d`: an entry at some
/// position gives its id and its name, and it is a folder exactly when the
/// entry's mime type is that of drive folders.
pub open spec fn read_from_entry(d: Seq<char>, c: ListedChild) -> bool {
    exists|es: int|
        0 <= es && #[trigger] scan_entry(d, es) is Some && {
            let e = scan_entry(d, es)->0;
            &&& e.id == c.id
            &&& e.name == c.name
            &&& (c.node_type == NodeType::Folder <==> e.mime == "application/vnd.google-apps.folder"@)
        }
}

proof fn lemma_listing_from_read(d: Seq<char>, pos: int, acc: Seq<ListedChild>)
    requires
        forall|i: int| 0 <= i < acc.len() ==> read_from_entry(d, #[trigger] acc[i]),
    ensures
        forall|i: int| 0 <= i < listing_from(d, pos, acc).len() ==> read_from_entry(
            d,
            #[trigger] listing_from(d, pos, acc)[i],
        ),
    decreases d.len() - pos,
{
    if pos < 0 || pos > d.len() {
    } else {
        match find_from(d, "[\""@, pos) {
            None => {},
            Some(es) => {
                lemma_find_from(d, "[\""@, pos);
                reveal_strlit("[\"");
                lemma_scan_entry_end(d, es);
                match scan_entry(d, es) {
                    None => {
                        lemma_listing_from_read(d, es + 1, acc);
                        assert(listing_from(d, pos, acc) == listing_from(d, es + 1, acc));
                    },
                    Some(e) => {
                        let next = add_entry(acc, e);
                        assert forall|i: int| 0 <= i < next.len() implies read_from_entry(d, #[trigger] next[i]) by {
                            if i < acc.len() {
                                assert(next[i] == acc[i]);
                            } else {
                                assert(next[i].id == e.id && next[i].name == e.name);
                                assert(scan_entry(d, es) is Some);
                            }
                        }
                        lemma_listing_from_read(d, e.end + 1, next);
                        assert(listing_from(d, pos, acc) == listing_from(d, e.end + 1, next));
                    },
                }
            },
        }
    }
}

/// Law: every child read from listing data comes from an entry of the data,
/// with that entry's id and name, and is a folder exactly when the entry's
/// mime type is `application/vnd.google-apps.folder`; any other mime type,
/// such as that of a Google document, gives a file.
pub proof fn listed_children_read_from_entries(d: Seq<char>)
    ensures
        forall|i: int| 0 <= i < listing(d).len() ==> read_from_entry(d, #[trigger] listing(d)[i]),
{
    lemma_listing_from_read(d, 0, Seq::empty());
}

/// Law: no two children of a parsed page share a name.
pub proof fn page_children_distinct(html: Seq<char>)
    ensures
        forall|i: int, j: int|
            0 <= i < j < listed_nodes(page_listing(html)).len() ==> listed_nodes(
                page_listing(html),
            )[i].name != listed_nodes(page_listing(html))[j].name,
{
    if raw_region(html) is Some {
        listing_well_formed(lossy_utf8(page_data_bytes(html)));
    }
}

/// Law: data without any backslash decodes to itself.
pub proof fn decode_without_escapes(b: Seq<u8>)
    requires
        forall|i: int| 0 <= i < b.len() ==> b[i] != 92,
    ensures
        decode_escapes(b) == b,
{
    lemma_decode_plain(b, 0);
    assert(b.skip(0) =~= b);
}

proof fn lemma_decode_plain(b: Seq<u8>, i: int)
    requires
        0 <= i <= b.len(),
        forall|k: int| 0 <= k < b.len() ==> b[k] != 92,
    ensures
        decode_from(b, i) == b.skip(i),
    decreases b.len() - i,
{
    if i < b.len() {
        lemma_decode_plain(b, i + 1);
        assert(seq![b[i]] + b.skip(i + 1) =~= b.skip(i));
    } else {
        assert(b.skip(i) =~= Seq::<u8>::empty());
    }
}

/// Positions of the parts of the entry that starts at `es`: the end of its
/// id, the quotes around its name and the quotes around its mime type.
fn scan_entry_exec(d: &Vec<char>, es: usize) -> (res: Option<(usize, usize, usize, usize, usize)>)
    requires
        es + 2 <= d.len(),
    ensures
        match res {
            None => scan_entry(d@, es as int) is None,
            Some((e1, s2, e2, s3, e3)) => {
                &&& es + 2 <= e1 && e1 < s2 && s2 < e2 && e2 < s3 && s3 < e3 && e3 < d@.len()
                &&& scan_entry(d@, es as int) == Some(
                    ScannedEntry {
                        id: d@.subrange(es + 2, e1 as int),
                        name: d@.subrange(s2 + 1, e2 as int),
                        mime: d@.subrange(s3 + 1, e3 as int),
                        end: e3 as int,
                    },
                )
            },
        },
{
    let len = d.len();
    let e1 = match find_char(d, '"', es + 2) {
        None => return None,
        Some(e) => e,
    };
    proof {
        lemma_find_char_from(d@, '"', es + 2);
    }
    if !utf8_len_at_least(d, es + 2, e1, 10) {
        return None;
    }
    let array_pat = chars_of(",[");
    proof {
        reveal_strlit(",[");
    }
    let pas = match find_seq(d, &array_pat, e1) {
        None => return None,
        Some(p) => p,
    };
    proof {
        lemma_find_from(d@, array_pat@, e1 as int);
    }
    let mut depth: usize = 1;
    let mut p = pas + 2;
    while depth > 0 && p < d.len()
        invariant
            pas + 2 <= p <= d@.len(),
            depth <= p - pas - 1,
            skip_brackets(d@, 1, pas + 2) == skip_brackets(d@, depth as nat, p as int),
        decreases d@.len() - p,
    {
        if d[p] == '[' {
            depth = depth + 1;
        } else if d[p] == ']' {
            depth = depth - 1;
        }
        p = p + 1;
    }
    let s2 = match find_char(d, '"', p) {
        None => return None,
        Some(x) => x,
    };
    proof {
        lemma_find_char_from(d@, '"', p as int);
    }
    let e2 = match find_char(d, '"', s2 + 1) {
        None => return None,
        Some(x) => x,
    };
    proof {
        lemma_find_char_from(d@, '"', s2 + 1);
    }
    let s3 = match find_char(d, '"', e2 + 1) {
        None => return None,
        Some(x) => x,
    };
    proof {
        lemma_find_char_from(d@, '"', e2 + 1);
    }
    let e3 = match find_char(d, '"', s3 + 1) {
        None => return None,
        Some(x) => x,
    };
    proof {
        lemma_find_char_from(d@, '"', s3 + 1);
    }
    Some((e1, s2, e2, s3, e3))
}

/// Locates the raw listing data in the characters of a page.
fn find_raw_region(h: &Vec<char>) -> (res: Option<(usize, usize)>)
    ensures
        match res {
            None => raw_region(h@) is None,
            Some((lo, hi)) => lo <= hi <= h@.len() && raw_region(h@) == Some((lo as int, hi as int)),
        },
{
    let len = h.len();
    let marker = chars_of("_DRIVE_ivd");
    proof {
        reveal_strlit("_DRIVE_ivd");
    }
    let idx = match find_seq(h, &marker, 0) {
        None => return None,
        Some(i) => i,
    };
    proof {
        lemma_find_from(h@, marker@, 0);
    }
    let mut curr = idx;
    let mut quotes_found: usize = 0;
    while quotes_found < 2
        invariant
            curr < len == h@.len(),
            quotes_found <= 2,
            quotes_found == 0 ==> curr == idx,
            quotes_found == 1 ==> find_char_from(h@, '\'', idx + 1) == Some(curr as int),
            quotes_found == 2 ==> (find_char_from(h@, '\'', idx + 1) matches Some(q1)
                && find_char_from(h@, '\'', q1 + 1) == Some(curr as int)),
            raw_region(h@) == match find_char_from(h@, '\'', idx + 1) {
                None => None,
                Some(q1) => match find_char_from(h@, '\'', q1 + 1) {
                    None => None,
                    Some(q2) => match find_char_from(h@, '\'', q2 + 1) {
                        None => None,
                        Some(end) => Some((q2 + 1, end)),
                    },
                },
            },
        decreases 2 - quotes_found,
    {
        match find_char(h, '\'', curr + 1) {
            Some(next) => {
                proof {
                    lemma_find_char_from(h@, '\'', curr + 1);
                }
                curr = next;
                quotes_found = quotes_found + 1;
            },
            None => return None,
        }
    }
    let start = curr + 1;
    match find_char(h, '\'', start) {
        None => None,
        Some(end) => {
            proof {
                lemma_find_char_from(h@, '\'', start as int);
            }
            Some((start, end))
        },
    }
}

proof fn lemma_title_bounds(h: Seq<char>, start: int, end: int)
    requires
        matches_at(h, "<title>"@, start),
        matches_at(h, "</title>"@, end),
        start <= end,
    ensures
        start + 7 <= end,
{
    reveal_strlit("<title>");
    reveal_strlit("</title>");
    if end < start + 7 {
        let k = end - start;
        let open = h.subrange(start, start + 7);
        let close = h.subrange(end, end + 8);
        assert(open[k] == h[end]);
        assert(close[0] == h[end]);
        if k == 0 {
            assert(open[1] == h[end + 1]);
            assert(close[1] == h[end + 1]);
        }
    }
}

/// Law: the folder name is the text of the first `<title>` element, kept
/// whole when it holds no " - Google Drive", and without that suffix when
/// the suffix is its only occurrence.
pub proof fn title_text_kept(html: Seq<char>, s: int, e: int)
    requires
        find_from(html, "<title>"@, 0) == Some(s),
        find_from(html, "</title>"@, s) == Some(e),
    ensures
        s + 7 <= e,
        (forall|j: int| !#[trigger] matches_at(html.subrange(s + 7, e), " - Google Drive"@, j)) ==> title_name(html)
            == html.subrange(s + 7, e),
        forall|y: Seq<char>|
            html.subrange(s + 7, e) == y + " - Google Drive"@ && (forall|j: int|
                0 <= j < y.len() ==> !#[trigger] matches_at(y + " - Google Drive"@, " - Google Drive"@, j))
                ==> #[trigger] title_name(html) == y,
{
    lemma_find_from(html, "<title>"@, 0);
    lemma_find_from(html, "</title>"@, s);
    lemma_title_bounds(html, s, e);
    reveal_strlit(" - Google Drive");
    let x = html.subrange(s + 7, e);
    let pat = " - Google Drive"@;
    if forall|j: int| !#[trigger] matches_at(x, pat, j) {
        replace_absent(x, pat, Seq::empty());
    }
    assert forall|y: Seq<char>|
        x == y + pat && (forall|j: int| 0 <= j < y.len() ==> !#[trigger] matches_at(y + pat, pat, j))
        implies #[trigger] title_name(html) == y by {
        remove_single_suffix(y, pat);
    }
}

/// Whether every `\x` escape with two more bytes after it ends on a
/// character boundary of `data`.
pub fn escapes_are_sliceable(data: &str) -> (res: bool)
    ensures
        res == escapes_sliceable(data.spec_bytes()),
{
    let bytes = data.as_bytes();
    let ghost b = bytes@;
    let mut i: usize = 0;
    while i < bytes.len()
        invariant
            b == bytes@,
            b == data.spec_bytes(),
            i <= b.len(),
            forall|k: int|
                0 <= k < i && k + 3 < b.len() && #[trigger] b[k] == 92 && b[k + 1] == 120 ==> (k + 4
                    == b.len() || !is_continuation_byte(b[k + 4])),
        decreases b.len() - i,
    {
        if bytes[i] == 92 && bytes.len() - i > 3 && bytes[i + 1] == 120 {
            if bytes.len() - i > 4 && 0x80 <= bytes[i + 4] && bytes[i + 4] <= 0xbf {
                return false;
            }
        }
        i = i + 1;
    }
    true
}

/// Whether a page can be parsed: see [`page_sliceable`].
pub fn page_is_sliceable(html: &str) -> (res: bool)
    ensures
        res == page_sliceable(html@),
{
    let h = chars_of(html);
    match find_raw_region(&h) {
        None => true,
        Some((lo, hi)) => {
            let raw = string_of(&h, lo, hi);
            escapes_are_sliceable(raw.as_str())
        },
    }
}

/// Parses a drive folder page: a folder named after the page title, whose
/// children are the entries of the listing data that the page embeds.
pub fn parse_html(html: &str) -> (root: Node)
    requires
        page_sliceable(html@),
    ensures
        root@ == (NodeModel {
            name: title_name(html@),
            node_type: NodeType::Folder,
            id: None,
            children: listed_nodes(page_listing(html@)),
        }),
{
    let h = chars_of(html);
    let open_pat = chars_of("<title>");
    let close_pat = chars_of("</title>");
    proof {
        reveal_strlit("<title>");
        reveal_strlit("</title>");
    }
    let mut folder_name = "GDrive Folder".to_string();
    if let Some(start) = find_seq(&h, &open_pat, 0) {
        if let Some(end) = find_seq(&h, &close_pat, start) {
            proof {
                lemma_find_from(h@, open_pat@, 0);
                lemma_find_from(h@, close_pat@, start as int);
                lemma_title_bounds(h@, start as int, end as int);
            }
            let title = slice_chars(&h, start + 7, end);
            let suffix = chars_of(" - Google Drive");
            proof {
                reveal_strlit(" - Google Drive");
            }
            let nothing: Vec<char> = Vec::new();
            folder_name = replace_all_exec(&title, &suffix, &nothing);
        }
    }
    let children = match find_raw_region(&h) {
        None => {
            let none: Vec<Node> = Vec::new();
            assert(models(none@) =~= listed_nodes(page_listing(html@)));
            none
        },
        Some((lo, hi)) => {
            let raw = string_of(&h, lo, hi);
            let decoded = decode_drive_data(raw.as_str());
            let data = utf8_lossy(decoded.as_slice());
            parse_listing(data.as_str())
        },
    };
    Node { name: folder_name, node_type: NodeType::Folder, id: None, children }
}

/// Whether one of `children` is named `name`.
fn has_child_named_exec(children: &Vec<Node>, name: &String, Ghost(acc): Ghost<Seq<ListedChild>>) -> (res: bool)
    requires
        models(children@) == listed_nodes(acc),
    ensures
        res == has_child_named(acc, name@),
{
    proof {
        lemma_models(children@);
    }
    let mut k: usize = 0;
    while k < children.len()
        invariant
            models(children@) == listed_nodes(acc),
            models(children@).len() == children@.len(),
            forall|i: int| 0 <= i < children@.len() ==> #[trigger] models(children@)[i] == children@[i]@,
            k <= children@.len(),
            forall|j: int| 0 <= j < k ==> acc[j].name != name@,
        decreases children@.len() - k,
    {
        assert(models(children@)[k as int] == listed_node(acc[k as int]));
        if children[k].name == *name {
            assert(acc[k as int].name == name@);
            return true;
        }
        k = k + 1;
    }
    false
}

/// The children that the decoded listing data `data` lists: one leaf node per
/// complete entry whose id is at least ten bytes long and whose name is not
/// empty, is no mime type and is not taken by an earlier child.
pub fn parse_listing(data: &str) -> (children: Vec<Node>)
    ensures
        models(children@) == listed_nodes(listing(data@)),
{
    let d = chars_of(data);
    let entry_pat = chars_of("[\"");
    let app_pat = chars_of("application/");
    let folder_pat = chars_of("application/vnd.google-apps.folder");
    proof {
        reveal_strlit("[\"");
    }
    let mut children: Vec<Node> = Vec::new();
    let ghost mut acc: Seq<ListedChild> = Seq::empty();
    let mut pos: usize = 0;
    assert(models(children@) =~= listed_nodes(acc));
    loop
        invariant
            d@ == data@,
            entry_pat@ == "[\""@,
            entry_pat@.len() == 2,
            app_pat@ == "application/"@,
            folder_pat@ == folder_mime(),
            pos <= d@.len(),
            listing(d@) == listing_from(d@, pos as int, acc),
            models(children@) == listed_nodes(acc),
        ensures
            models(children@) == listed_nodes(listing(data@)),
        decreases d@.len() - pos,
    {
        let es = match find_seq(&d, &entry_pat, pos) {
            None => {
                break;
            },
            Some(e) => e,
        };
        proof {
            lemma_find_from(d@, entry_pat@, pos as int);
        }
        let len = d.len();
        assert(es + 2 <= len);
        match scan_entry_exec(&d, es) {
            None => {
                pos = es + 1;
            },
            Some((e1, s2, e2, s3, e3)) => {
                let ghost entry = scan_entry(d@, es as int)->0;
                let ghost old_acc = acc;
                let name = string_of(&d, s2 + 1, e2);
                let accepted = e2 > s2 + 1 && !sub_starts_with(&d, s2 + 1, e2, &app_pat);
                assert(accepted == accepted_name(entry.name));
                if accepted && !has_child_named_exec(&children, &name, Ghost(acc)) {
                    let id = string_of(&d, es + 2, e1);
                    let node_type = if sub_is(&d, s3 + 1, e3, &folder_pat) {
                        NodeType::Folder
                    } else {
                        NodeType::File
                    };
                    let child = Node::new(name, node_type, Some(id));
                    proof {
                        acc = acc.push(
                            ListedChild { name: entry.name, node_type, id: entry.id },
                        );
                        lemma_models(children@);
                    }
                    let ghost old_children = children@;
                    let ghost child_model = child@;
                    children.push(child);
                    proof {
                        assert(children@.drop_last() =~= old_children);
                        assert(models(children@) == models(old_children).push(child_model));
                        assert(listed_nodes(acc) =~= listed_nodes(old_acc).push(
                            listed_node(acc.last()),
                        ));
                        assert(models(children@) =~= listed_nodes(acc));
                    }
                }
                assert(acc == add_entry(old_acc, entry));
                pos = e3 + 1;
            },
        }
    }
    children
}

} // verus!
