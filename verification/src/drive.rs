use vstd::prelude::*;

use crate::node::{lemma_models, Node, NodeModel, NodeType};
use crate::text::{chars_of, find_from, find_seq, lemma_find_from, matches_at, string_of};

verus! {

broadcast use vstd::string::group_string_axioms;

/// A character that ends a folder id in an address.
pub open spec fn is_id_separator(c: char) -> bool {
    c == '?' || c == '&' || c == '/'
}

/// The first position at or after `from` that holds a separator, or the end.
pub open spec fn separator_from(s: Seq<char>, from: int) -> int
    decreases s.len() - from,
{
    if from < 0 || from >= s.len() {
        s.len() as int
    } else if is_id_separator(s[from]) {
        from
    } else {
        separator_from(s, from + 1)
    }
}

/// The folder id in a shared-folder address: what follows the first
/// `/folders/`, up to the first `?`, `&` or `/` (the next `/folders/`, if
/// any, begins with such a separator); none when there is no `/folders/`.
pub open spec fn folder_id_spec(url: Seq<char>) -> Option<Seq<char>> {
    match find_from(url, "/folders/"@, 0) {
        None => None,
        Some(i) => Some(url.subrange(i + 9, separator_from(url, i + 9))),
    }
}

/// The address of the page that lists the folder `id`.
pub open spec fn folder_url_spec(id: Seq<char>) -> Seq<char> {
    "https://drive.google.com/drive/folders/"@ + id + "?hl=en"@
}

proof fn lemma_separator_from(s: Seq<char>, from: int)
    requires
        0 <= from <= s.len(),
    ensures
        from <= separator_from(s, from) <= s.len(),
        forall|j: int| from <= j < separator_from(s, from) ==> !is_id_separator(#[trigger] s[j]),
        separator_from(s, from) < s.len() ==> is_id_separator(s[separator_from(s, from)]),
    decreases s.len() - from,
{
    if from < s.len() && !is_id_separator(s[from]) {
        lemma_separator_from(s, from + 1);
    }
}

/// The folder id in a shared-folder address, if it has one.
pub fn folder_id_from_url(url: &str) -> (res: Option<String>)
    ensures
        match res {
            Some(id) => folder_id_spec(url@) == Some(id@),
            None => folder_id_spec(url@) is None,
        },
{
    let u = chars_of(url);
    let len = u.len();
    let pat = chars_of("/folders/");
    proof {
        reveal_strlit("/folders/");
    }
    match find_seq(&u, &pat, 0) {
        None => None,
        Some(i) => {
            proof {
                lemma_find_from(u@, pat@, 0);
            }
            let start = i + 9;
            let mut j = start;
            while j < len && u[j] != '?' && u[j] != '&' && u[j] != '/'
                invariant
                    start <= j <= len == u@.len(),
                    separator_from(u@, start as int) == separator_from(u@, j as int),
                decreases len - j,
            {
                j = j + 1;
            }
            Some(string_of(&u, start, j))
        },
    }
}

/// The address of the page that lists the folder `id`.
pub fn folder_url(id: &str) -> (res: String)
    ensures
        res@ == folder_url_spec(id@),
{
    let mut url = "https://drive.google.com/drive/folders/".to_string();
    url.append(id);
    url.append("?hl=en");
    url
}

/// Law: the folder id is read back from the address of its folder page,
/// for any id without `?`, `&` or `/`.
pub proof fn folder_id_round_trip(id: Seq<char>)
    requires
        forall|k: int| 0 <= k < id.len() ==> !is_id_separator(#[trigger] id[k]),
    ensures
        folder_id_spec(folder_url_spec(id)) == Some(id),
{
    let prefix = "https://drive.google.com/drive/folders/"@;
    let pat = "/folders/"@;
    let u = folder_url_spec(id);
    reveal_strlit("https://drive.google.com/drive/folders/");
    reveal_strlit("/folders/");
    reveal_strlit("?hl=en");
    assert(prefix.len() == 39);
    assert(u.subrange(30, 39) =~= pat);
    assert forall|j: int| 0 <= j < 30 implies !matches_at(u, pat, j) by {
        if matches_at(u, pat, j) {
            assert(u.subrange(j, j + 9)[0] == u[j]);
            assert(u.subrange(j, j + 9)[1] == u[j + 1]);
            assert(u[j] == prefix[j]);
            assert(u[j + 1] == prefix[j + 1]);
        }
    }
    lemma_find_from(u, pat, 0);
    assert(matches_at(u, pat, 30));
    assert(find_from(u, pat, 0) == Some(30int));
    lemma_separator_from(u, 39);
    assert(u[39 + id.len() as int] == '?');
    assert forall|j: int| 39 <= j < 39 + id.len() implies !is_id_separator(#[trigger] u[j]) by {
        assert(u[j] == id[j - 39]);
    }
    assert(separator_from(u, 39) == 39 + id.len()) by {
        if separator_from(u, 39) < 39 + id.len() {
            let s = separator_from(u, 39);
            assert(is_id_separator(u[s]));
        }
    }
    assert(u.subrange(39, 39 + id.len() as int) =~= id);
}

/// Law: the folder id of an address is what follows its first `/folders/`:
/// it holds no `?`, `&` or `/`, and it runs up to the first of them or to the
/// end of the address. Without `/folders/` there is no id.
pub proof fn folder_id_stops_at_separators(url: Seq<char>)
    ensures
        match find_from(url, "/folders/"@, 0) {
            None => folder_id_spec(url) is None,
            Some(i) => folder_id_spec(url) matches Some(id) && {
                &&& i + 9 + id.len() <= url.len()
                &&& url.subrange(i + 9, i + 9 + id.len()) == id
                &&& forall|k: int| 0 <= k < id.len() ==> #[trigger] id[k] != '?' && id[k] != '&' && id[k] != '/'
                &&& (i + 9 + id.len() == url.len() || url[i + 9 + id.len()] == '?' || url[i + 9 + id.len()]
                    == '&' || url[i + 9 + id.len()] == '/')
            },
        },
{
    reveal_strlit("/folders/");
    lemma_find_from(url, "/folders/"@, 0);
    if let Some(i) = find_from(url, "/folders/"@, 0) {
        lemma_separator_from(url, i + 9);
        let end = separator_from(url, i + 9);
        let id = url.subrange(i + 9, end);
        assert forall|k: int| 0 <= k < id.len() implies #[trigger] id[k] != '?' && id[k] != '&' && id[k] != '/' by {
            assert(id[k] == url[i + 9 + k]);
            assert(!is_id_separator(url[i + 9 + k]));
        }
    }
}

/// Law: a shared-folder link gives back its id, for any id without `?`, `&`
/// or `/` (letters, digits, `-` and `_` among others), whatever follows the
/// id from such a separator on (such as `?usp=sharing`).
pub proof fn shared_link_id(id: Seq<char>, rest: Seq<char>)
    requires
        forall|k: int| 0 <= k < id.len() ==> #[trigger] id[k] != '?' && id[k] != '&' && id[k] != '/',
        rest.len() == 0 || rest[0] == '?' || rest[0] == '&' || rest[0] == '/',
    ensures
        folder_id_spec("https://drive.google.com/drive/folders/"@ + id + rest) == Some(id),
{
    let prefix = "https://drive.google.com/drive/folders/"@;
    let pat = "/folders/"@;
    let u = prefix + id + rest;
    reveal_strlit("https://drive.google.com/drive/folders/");
    reveal_strlit("/folders/");
    assert(prefix.len() == 39);
    assert(u.subrange(30, 39) =~= pat);
    assert forall|j: int| 0 <= j < 30 implies !matches_at(u, pat, j) by {
        if matches_at(u, pat, j) {
            assert(u.subrange(j, j + 9)[0] == u[j]);
            assert(u.subrange(j, j + 9)[1] == u[j + 1]);
            assert(u[j] == prefix[j]);
            assert(u[j + 1] == prefix[j + 1]);
        }
    }
    lemma_find_from(u, pat, 0);
    assert(matches_at(u, pat, 30));
    assert(find_from(u, pat, 0) == Some(30int));
    lemma_separator_from(u, 39);
    assert forall|j: int| 39 <= j < 39 + id.len() implies !is_id_separator(#[trigger] u[j]) by {
        assert(u[j] == id[j - 39]);
    }
    if rest.len() > 0 {
        assert(u[39 + id.len() as int] == rest[0]);
    }
    assert(separator_from(u, 39) == 39 + id.len()) by {
        if separator_from(u, 39) < 39 + id.len() {
            let s = separator_from(u, 39);
            assert(is_id_separator(u[s]));
        }
    }
    assert(u.subrange(39, 39 + id.len() as int) =~= id);
}

/// The folders among the first `k` children `cs` whose pages are still to
/// be fetched: each folder child with an id, as its position and its id, in
/// order.
pub open spec fn folders_to_fetch_spec(cs: Seq<NodeModel>, k: int) -> Seq<(int, Seq<char>)>
    decreases k,
{
    if k <= 0 || k > cs.len() {
        Seq::empty()
    } else {
        let prev = folders_to_fetch_spec(cs, k - 1);
        let c = cs[k - 1];
        if c.node_type == NodeType::Folder && c.id is Some {
            prev.push((k - 1, c.id->0))
        } else {
            prev
        }
    }
}

/// The children of `node` whose folder pages are fetched next: each folder
/// child with an id, as its position and its id, in order.
pub fn folders_to_fetch(node: &Node) -> (res: Vec<(usize, String)>)
    ensures
        res@.map_values(|e: (usize, String)| (e.0 as int, e.1@)) == folders_to_fetch_spec(
            node@.children,
            node@.children.len() as int,
        ),
{
    proof {
        lemma_models(node.children@);
    }
    let mut res: Vec<(usize, String)> = Vec::new();
    let mut i: usize = 0;
    while i < node.children.len()
        invariant
            i <= node.children@.len(),
            node@.children.len() == node.children@.len(),
            forall|j: int| 0 <= j < node.children@.len() ==> #[trigger] node@.children[j] == node.children@[j]@,
            res@.map_values(|e: (usize, String)| (e.0 as int, e.1@)) == folders_to_fetch_spec(
                node@.children,
                i as int,
            ),
        decreases node.children@.len() - i,
    {
        let c = &node.children[i];
        assert(node@.children[i as int] == c@);
        if matches!(c.node_type, NodeType::Folder) {
            match &c.id {
                Some(id) => {
                    let ghost before = res@;
                    res.push((i, id.clone()));
                    assert(res@.map_values(|e: (usize, String)| (e.0 as int, e.1@)) =~= before.map_values(
                        |e: (usize, String)| (e.0 as int, e.1@),
                    ).push((i as int, id@)));
                },
                None => {},
            }
        }
        i = i + 1;
    }
    res
}

/// Gives `folder` the children of `listing`, the parsed page of that folder.
pub fn adopt_children(folder: &mut Node, listing: Node)
    ensures
        final(folder)@ == (NodeModel { children: listing@.children, ..old(folder)@ }),
{
    folder.children = listing.children;
}

} // verus!
