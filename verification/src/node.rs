use vstd::prelude::*;

use crate::utils::{sanitized, sanitize_name};

verus! {

/// Whether a drive entry is a folder or a file.
#[derive(Clone, Copy, Debug, PartialEq, Eq, Structural)]
pub enum NodeType {
    Folder,
    File,
}

/// A drive entry together with its (already fetched) children.
#[derive(Debug)]
pub struct Node {
    pub name: String,
    pub node_type: NodeType,
    pub id: Option<String>,
    pub children: Vec<Node>,
}

/// Mathematical model of a [`Node`].
pub struct NodeModel {
    pub name: Seq<char>,
    pub node_type: NodeType,
    pub id: Option<Seq<char>>,
    pub children: Seq<NodeModel>,
}

pub open spec fn opt_string_view(o: Option<String>) -> Option<Seq<char>> {
    match o {
        Some(s) => Some(s@),
        None => None,
    }
}

impl View for Node {
    type V = NodeModel;

    open spec fn view(&self) -> NodeModel
        decreases self,
    {
        NodeModel {
            name: self.name@,
            node_type: self.node_type,
            id: opt_string_view(self.id),
            children: models(self.children@),
        }
    }
}

/// The models of a sequence of nodes, element by element.
pub open spec fn models(s: Seq<Node>) -> Seq<NodeModel>
    decreases s,
{
    if s.len() == 0 {
        Seq::empty()
    } else {
        models(s.drop_last()).push(s.last()@)
    }
}

pub proof fn lemma_models(s: Seq<Node>)
    ensures
        models(s).len() == s.len(),
        forall|i: int| 0 <= i < s.len() ==> #[trigger] models(s)[i] == s[i]@,
    decreases s.len(),
{
    if s.len() > 0 {
        lemma_models(s.drop_last());
        assert(models(s) == models(s.drop_last()).push(s.last()@));
        assert forall|i: int| 0 <= i < s.len() implies #[trigger] models(s)[i] == s[i]@ by {
            if i < s.len() - 1 {
                assert(s.drop_last()[i] == s[i]);
            }
        }
    }
}

/// The model of a node with no children.
pub open spec fn leaf_model(name: Seq<char>, node_type: NodeType, id: Option<Seq<char>>) -> NodeModel {
    NodeModel { name, node_type, id, children: Seq::empty() }
}

impl Node {
    pub fn new(name: String, node_type: NodeType, id: Option<String>) -> (res: Self)
        ensures
            res@ == leaf_model(name@, node_type, opt_string_view(id)),
    {
        let res = Node { name, node_type, id, children: Vec::new() };
        assert(res@.children =~= Seq::<NodeModel>::empty());
        res
    }
}

/// A local path, as the sequence of its components.
pub type PathModel = Seq<Seq<char>>;

/// The model of a path held as its components.
pub open spec fn path_view(p: Seq<String>) -> PathModel {
    p.map_values(|s: String| s@)
}

/// Mathematical model of a [`Diff`].
#[verifier::ext_equal]
pub struct DiffModel {
    pub added: Seq<(PathModel, NodeModel)>,
    pub removed: Seq<(PathModel, NodeModel)>,
    pub updated: Seq<(PathModel, NodeModel, NodeModel)>,
}

pub open spec fn empty_diff() -> DiffModel {
    DiffModel { added: Seq::empty(), removed: Seq::empty(), updated: Seq::empty() }
}

/// `a`, then `b`, list by list.
pub open spec fn concat(a: DiffModel, b: DiffModel) -> DiffModel {
    DiffModel { added: a.added + b.added, removed: a.removed + b.removed, updated: a.updated + b.updated }
}

/// The index of the last of `cs` named `name`, or -1.
pub open spec fn last_named(cs: Seq<NodeModel>, name: Seq<char>) -> int
    decreases cs.len(),
{
    if cs.len() == 0 {
        -1
    } else if cs.last().name == name {
        cs.len() - 1
    } else {
        last_named(cs.drop_last(), name)
    }
}

/// No child before the `k`-th has its name.
pub open spec fn first_of_name(cs: Seq<NodeModel>, k: int) -> bool {
    forall|j: int| 0 <= j < k ==> #[trigger] cs[j].name != cs[k].name
}

pub open spec fn has_name(cs: Seq<NodeModel>, name: Seq<char>) -> bool {
    exists|j: int| 0 <= j < cs.len() && #[trigger] cs[j].name == name
}

/// The path of a child named `name` under `path`.
pub open spec fn child_path(path: PathModel, name: Seq<char>) -> PathModel {
    path.push(sanitized(name))
}

/// What comparing the `k`-th new child with the old children adds to the diff.
pub open spec fn diff_child(o: NodeModel, n: NodeModel, path: PathModel, k: int) -> DiffModel
    decreases n, 0int,
{
    if 0 <= k < n.children.len() {
        let c = n.children[k];
        let cp = child_path(path, c.name);
        let li = last_named(o.children, c.name);
        if 0 <= li < o.children.len() && first_of_name(n.children, k) {
            let oc = o.children[li];
            if oc.node_type == NodeType::File && c.node_type == NodeType::File {
                if oc.id != c.id {
                    DiffModel { updated: seq![(cp, oc, c)], ..empty_diff() }
                } else {
                    empty_diff()
                }
            } else if oc.node_type == NodeType::Folder && c.node_type == NodeType::Folder {
                proof {
                    assert(decreases_to!(n => n.children));
                    assert(decreases_to!(n.children => n.children[k]));
                }
                diff_nodes(oc, c, cp)
            } else {
                DiffModel { added: seq![(cp, c)], removed: seq![(cp, oc)], ..empty_diff() }
            }
        } else {
            DiffModel { added: seq![(cp, c)], ..empty_diff() }
        }
    } else {
        empty_diff()
    }
}

/// The diff that the first `k` new children give.
pub open spec fn diff_upto(o: NodeModel, n: NodeModel, path: PathModel, k: int) -> DiffModel
    decreases n, 1int, k,
{
    if k <= 0 || k > n.children.len() {
        empty_diff()
    } else {
        concat(diff_upto(o, n, path, k - 1), diff_child(o, n, path, k - 1))
    }
}

/// The old children, among the first `j`, that no new child replaces: each
/// the last of its name, with no new child of that name.
pub open spec fn leftovers_upto(o: NodeModel, n: NodeModel, path: PathModel, j: int) -> Seq<(PathModel, NodeModel)>
    decreases j,
{
    if j <= 0 || j > o.children.len() {
        Seq::empty()
    } else {
        let prev = leftovers_upto(o, n, path, j - 1);
        let oc = o.children[j - 1];
        if last_named(o.children, oc.name) == j - 1 && !has_name(n.children, oc.name) {
            prev.push((child_path(path, oc.name), oc))
        } else {
            prev
        }
    }
}

/// The changes from the tree `o` to the tree `n`, whose roots lie at `path`:
/// for each new child in order, an addition, an update, a replacement
/// (removed and added) or the changes inside a folder kept as a folder; then
/// the old children that no new child replaces, as removals.
pub open spec fn diff_nodes(o: NodeModel, n: NodeModel, path: PathModel) -> DiffModel
    decreases n, 2int, 0int,
{
    concat(
        diff_upto(o, n, path, n.children.len() as int),
        DiffModel { removed: leftovers_upto(o, n, path, o.children.len() as int), ..empty_diff() },
    )
}

/// No two children of any folder in the tree share a name.
pub open spec fn unique_names(t: NodeModel) -> bool
    decreases t,
{
    &&& forall|i: int, j: int|
        0 <= i < j < t.children.len() ==> #[trigger] t.children[i].name != #[trigger] t.children[j].name
    &&& forall|i: int| 0 <= i < t.children.len() ==> unique_names(#[trigger] t.children[i])
}

pub(crate) proof fn lemma_last_named_unique(cs: Seq<NodeModel>, k: int)
    requires
        0 <= k < cs.len(),
        forall|i: int, j: int| 0 <= i < j < cs.len() ==> #[trigger] cs[i].name != #[trigger] cs[j].name,
    ensures
        last_named(cs, cs[k].name) == k,
    decreases cs.len(),
{
    if k < cs.len() - 1 {
        assert(cs.last().name != cs[k].name);
        assert(cs.drop_last()[k] == cs[k]);
        lemma_last_named_unique(cs.drop_last(), k);
    }
}

pub(crate) proof fn lemma_last_named_found(cs: Seq<NodeModel>, x: Seq<char>)
    ensures
        -1 <= last_named(cs, x) < cs.len(),
        last_named(cs, x) >= 0 ==> cs[last_named(cs, x)].name == x,
        has_name(cs, x) <==> last_named(cs, x) >= 0,
    decreases cs.len(),
{
    if cs.len() > 0 {
        let d = cs.drop_last();
        lemma_last_named_found(d, x);
        if cs.last().name != x {
            let li = last_named(d, x);
            if li >= 0 {
                assert(cs[li] == d[li]);
                assert(cs[li].name == x);
            }
            if has_name(cs, x) {
                let j = choose|j: int| 0 <= j < cs.len() && #[trigger] cs[j].name == x;
                assert(j != cs.len() - 1);
                assert(d[j].name == x);
            }
        } else {
            assert(cs[cs.len() - 1].name == x);
        }
    }
}

proof fn lemma_self_diff_upto(t: NodeModel, path: PathModel, k: int)
    requires
        unique_names(t),
        0 <= k <= t.children.len(),
    ensures
        diff_upto(t, t, path, k) == empty_diff(),
    decreases t, 1int, k,
{
    if k > 0 {
        lemma_self_diff_upto(t, path, k - 1);
        let c = t.children[k - 1];
        lemma_last_named_unique(t.children, k - 1);
        if c.node_type == NodeType::Folder {
            assert(decreases_to!(t => t.children));
            assert(decreases_to!(t.children => t.children[k - 1]));
            lemma_self_diff(c, child_path(path, c.name));
        }
        assert(diff_child(t, t, path, k - 1) == empty_diff());
        assert(concat(empty_diff(), empty_diff()) =~= empty_diff());
    }
}

proof fn lemma_self_diff(t: NodeModel, path: PathModel)
    requires
        unique_names(t),
    ensures
        diff_nodes(t, t, path) == empty_diff(),
    decreases t, 2int, 0int,
{
    lemma_self_diff_upto(t, path, t.children.len() as int);
    lemma_no_leftovers(t, path, t.children.len() as int);
    assert(concat(empty_diff(), DiffModel { removed: Seq::empty(), ..empty_diff() }) =~= empty_diff());
}

proof fn lemma_no_leftovers(t: NodeModel, path: PathModel, j: int)
    requires
        0 <= j <= t.children.len(),
    ensures
        leftovers_upto(t, t, path, j) == Seq::<(PathModel, NodeModel)>::empty(),
    decreases j,
{
    if j > 0 {
        lemma_no_leftovers(t, path, j - 1);
        assert(has_name(t.children, t.children[j - 1].name));
    }
}

/// Law: comparing a tree whose folders never hold two children of one name
/// with itself finds no change.
pub proof fn diff_with_itself_is_empty(t: NodeModel, path: PathModel)
    requires
        unique_names(t),
    ensures
        diff_nodes(t, t, path) == empty_diff(),
{
    lemma_self_diff(t, path);
}

proof fn lemma_diff_from_empty_upto(o: NodeModel, n: NodeModel, path: PathModel, k: int)
    requires
        o.children.len() == 0,
        0 <= k <= n.children.len(),
    ensures
        diff_upto(o, n, path, k) == (DiffModel {
            added: n.children.take(k).map_values(|c: NodeModel| (child_path(path, c.name), c)),
            ..empty_diff()
        }),
    decreases k,
{
    if k > 0 {
        lemma_diff_from_empty_upto(o, n, path, k - 1);
        assert(last_named(o.children, n.children[k - 1].name) == -1);
        assert(diff_child(o, n, path, k - 1) == DiffModel {
            added: seq![(child_path(path, n.children[k - 1].name), n.children[k - 1])],
            ..empty_diff()
        });
        assert(empty_diff().removed + empty_diff().removed =~= empty_diff().removed);
        assert(empty_diff().updated + empty_diff().updated =~= empty_diff().updated);
        assert(n.children.take(k).map_values(|c: NodeModel| (child_path(path, c.name), c))
            =~= n.children.take(k - 1).map_values(|c: NodeModel| (child_path(path, c.name), c)).push(
            (child_path(path, n.children[k - 1].name), n.children[k - 1]),
        ));
        assert(diff_upto(o, n, path, k) =~= DiffModel {
            added: n.children.take(k).map_values(|c: NodeModel| (child_path(path, c.name), c)),
            ..empty_diff()
        });
    } else {
        assert(n.children.take(0).map_values(|c: NodeModel| (child_path(path, c.name), c)) =~= Seq::<
            (PathModel, NodeModel),
        >::empty());
    }
}

/// Law: against a folder that had no children, every new child is added,
/// in order, and nothing is removed or updated.
pub proof fn diff_from_empty_folder(o: NodeModel, n: NodeModel, path: PathModel)
    requires
        o.children.len() == 0,
    ensures
        diff_nodes(o, n, path) == (DiffModel {
            added: n.children.map_values(|c: NodeModel| (child_path(path, c.name), c)),
            ..empty_diff()
        }),
{
    lemma_diff_from_empty_upto(o, n, path, n.children.len() as int);
    assert(n.children.take(n.children.len() as int) =~= n.children);
    assert(diff_nodes(o, n, path) =~= DiffModel {
        added: n.children.map_values(|c: NodeModel| (child_path(path, c.name), c)),
        ..empty_diff()
    });
}

/// Every update is a file kept as a file whose id changed.
pub open spec fn updates_changed(u: Seq<(PathModel, NodeModel, NodeModel)>) -> bool {
    forall|i: int|
        0 <= i < u.len() ==> {
            &&& (#[trigger] u[i]).1.node_type == NodeType::File
            &&& u[i].2.node_type == NodeType::File
            &&& u[i].1.id != u[i].2.id
        }
}

proof fn lemma_updates_concat(a: Seq<(PathModel, NodeModel, NodeModel)>, b: Seq<(PathModel, NodeModel, NodeModel)>)
    requires
        updates_changed(a),
        updates_changed(b),
    ensures
        updates_changed(a + b),
{
    assert forall|i: int| 0 <= i < (a + b).len() implies {
        &&& (#[trigger] (a + b)[i]).1.node_type == NodeType::File
        &&& (a + b)[i].2.node_type == NodeType::File
        &&& (a + b)[i].1.id != (a + b)[i].2.id
    } by {
        if i < a.len() {
            assert((a + b)[i] == a[i]);
        } else {
            assert((a + b)[i] == b[i - a.len()]);
        }
    }
}

proof fn lemma_updates_child(o: NodeModel, n: NodeModel, path: PathModel, k: int)
    ensures
        updates_changed(diff_child(o, n, path, k).updated),
    decreases n, 0int,
{
    if 0 <= k < n.children.len() {
        let c = n.children[k];
        let li = last_named(o.children, c.name);
        if 0 <= li < o.children.len() && first_of_name(n.children, k) {
            let oc = o.children[li];
            if oc.node_type == NodeType::Folder && c.node_type == NodeType::Folder {
                assert(decreases_to!(n => n.children));
                assert(decreases_to!(n.children => n.children[k]));
                lemma_updates_nodes(oc, c, child_path(path, c.name));
            }
        }
    }
}

proof fn lemma_updates_upto(o: NodeModel, n: NodeModel, path: PathModel, k: int)
    ensures
        updates_changed(diff_upto(o, n, path, k).updated),
    decreases n, 1int, k,
{
    if 0 < k <= n.children.len() {
        lemma_updates_upto(o, n, path, k - 1);
        lemma_updates_child(o, n, path, k - 1);
        lemma_updates_concat(diff_upto(o, n, path, k - 1).updated, diff_child(o, n, path, k - 1).updated);
    }
}

proof fn lemma_updates_nodes(o: NodeModel, n: NodeModel, path: PathModel)
    ensures
        updates_changed(diff_nodes(o, n, path).updated),
    decreases n, 2int, 0int,
{
    lemma_updates_upto(o, n, path, n.children.len() as int);
    lemma_updates_concat(diff_upto(o, n, path, n.children.len() as int).updated, Seq::empty());
}

/// Law: a diff reports as updated only files that stayed files and whose
/// id changed.
pub proof fn diff_updates_are_changed_files(o: NodeModel, n: NodeModel, path: PathModel)
    ensures
        updates_changed(diff_nodes(o, n, path).updated),
{
    lemma_updates_nodes(o, n, path);
}

/// Whether `path` ends with the local name of `name`.
pub open spec fn at_own_name(path: PathModel, name: Seq<char>) -> bool {
    path.len() > 0 && path.last() == sanitized(name)
}

/// Every entry lies at a path that ends with its node's local name.
pub open spec fn entries_at_own_names(es: Seq<(PathModel, NodeModel)>) -> bool {
    forall|i: int| 0 <= i < es.len() ==> at_own_name((#[trigger] es[i]).0, es[i].1.name)
}

/// Every update lies at a path that ends with its nodes' local name, the
/// old and the new node having one name.
pub open spec fn updates_at_own_names(us: Seq<(PathModel, NodeModel, NodeModel)>) -> bool {
    forall|i: int|
        0 <= i < us.len() ==> at_own_name((#[trigger] us[i]).0, us[i].2.name) && us[i].1.name == us[i].2.name
}

pub open spec fn diff_at_own_names(d: DiffModel) -> bool {
    &&& entries_at_own_names(d.added)
    &&& entries_at_own_names(d.removed)
    &&& updates_at_own_names(d.updated)
}

proof fn lemma_named_concat(a: DiffModel, b: DiffModel)
    requires
        diff_at_own_names(a),
        diff_at_own_names(b),
    ensures
        diff_at_own_names(concat(a, b)),
{
    let c = concat(a, b);
    assert forall|i: int| 0 <= i < c.added.len() implies at_own_name((#[trigger] c.added[i]).0, c.added[i].1.name) by {
        if i < a.added.len() {
            assert(c.added[i] == a.added[i]);
        } else {
            assert(c.added[i] == b.added[i - a.added.len()]);
        }
    }
    assert forall|i: int| 0 <= i < c.removed.len() implies at_own_name((#[trigger] c.removed[i]).0, c.removed[i].1.name) by {
        if i < a.removed.len() {
            assert(c.removed[i] == a.removed[i]);
        } else {
            assert(c.removed[i] == b.removed[i - a.removed.len()]);
        }
    }
    assert forall|i: int| 0 <= i < c.updated.len() implies at_own_name((#[trigger] c.updated[i]).0, c.updated[i].2.name)
        && c.updated[i].1.name == c.updated[i].2.name by {
        if i < a.updated.len() {
            assert(c.updated[i] == a.updated[i]);
        } else {
            assert(c.updated[i] == b.updated[i - a.updated.len()]);
        }
    }
}

proof fn lemma_named_child(o: NodeModel, n: NodeModel, path: PathModel, k: int)
    ensures
        diff_at_own_names(diff_child(o, n, path, k)),
    decreases n, 0int,
{
    if 0 <= k < n.children.len() {
        let c = n.children[k];
        let cp = child_path(path, c.name);
        assert(cp.last() == sanitized(c.name));
        let li = last_named(o.children, c.name);
        lemma_last_named_found(o.children, c.name);
        if 0 <= li < o.children.len() && first_of_name(n.children, k) {
            let oc = o.children[li];
            if oc.node_type == NodeType::Folder && c.node_type == NodeType::Folder {
                assert(decreases_to!(n => n.children));
                assert(decreases_to!(n.children => n.children[k]));
                lemma_named_nodes(oc, c, cp);
            }
        }
    }
}

proof fn lemma_named_upto(o: NodeModel, n: NodeModel, path: PathModel, k: int)
    ensures
        diff_at_own_names(diff_upto(o, n, path, k)),
    decreases n, 1int, k,
{
    if 0 < k <= n.children.len() {
        lemma_named_upto(o, n, path, k - 1);
        lemma_named_child(o, n, path, k - 1);
        lemma_named_concat(diff_upto(o, n, path, k - 1), diff_child(o, n, path, k - 1));
    }
}

proof fn lemma_named_leftovers(o: NodeModel, n: NodeModel, path: PathModel, j: int)
    ensures
        entries_at_own_names(leftovers_upto(o, n, path, j)),
    decreases j,
{
    if 0 < j <= o.children.len() {
        lemma_named_leftovers(o, n, path, j - 1);
        let oc = o.children[j - 1];
        assert(child_path(path, oc.name).last() == sanitized(oc.name));
    }
}

proof fn lemma_named_nodes(o: NodeModel, n: NodeModel, path: PathModel)
    ensures
        diff_at_own_names(diff_nodes(o, n, path)),
    decreases n, 2int, 0int,
{
    lemma_named_upto(o, n, path, n.children.len() as int);
    lemma_named_leftovers(o, n, path, o.children.len() as int);
    lemma_named_concat(
        diff_upto(o, n, path, n.children.len() as int),
        DiffModel { removed: leftovers_upto(o, n, path, o.children.len() as int), ..empty_diff() },
    );
}

/// Law: every entry of a diff lies at a path that ends with the local
/// (sanitized) name of its node; an update's old and new nodes share a name.
pub proof fn diff_entries_at_own_names(o: NodeModel, n: NodeModel, path: PathModel)
    ensures
        diff_at_own_names(diff_nodes(o, n, path)),
{
    lemma_named_nodes(o, n, path);
}

proof fn lemma_contains_concat<A>(a: Seq<A>, b: Seq<A>)
    ensures
        forall|e: A| a.contains(e) ==> (a + b).contains(e),
        forall|e: A| b.contains(e) ==> (a + b).contains(e),
{
    assert forall|e: A| a.contains(e) implies (a + b).contains(e) by {
        let j = choose|j: int| 0 <= j < a.len() && a[j] == e;
        assert((a + b)[j] == e);
    }
    assert forall|e: A| b.contains(e) implies (a + b).contains(e) by {
        let j = choose|j: int| 0 <= j < b.len() && b[j] == e;
        assert((a + b)[j + a.len()] == e);
    }
}

/// Everything in `d` is also in `big`, list by list.
pub open spec fn diff_within(d: DiffModel, big: DiffModel) -> bool {
    &&& forall|e: (PathModel, NodeModel)| d.added.contains(e) ==> big.added.contains(e)
    &&& forall|e: (PathModel, NodeModel)| d.removed.contains(e) ==> big.removed.contains(e)
    &&& forall|u: (PathModel, NodeModel, NodeModel)| d.updated.contains(u) ==> big.updated.contains(u)
}

proof fn lemma_within_concat(a: DiffModel, b: DiffModel)
    ensures
        diff_within(a, concat(a, b)),
        diff_within(b, concat(a, b)),
{
    lemma_contains_concat(a.added, b.added);
    lemma_contains_concat(a.removed, b.removed);
    lemma_contains_concat(a.updated, b.updated);
}

proof fn lemma_within_trans(a: DiffModel, b: DiffModel, c: DiffModel)
    requires
        diff_within(a, b),
        diff_within(b, c),
    ensures
        diff_within(a, c),
{
}

proof fn lemma_child_within_upto(o: NodeModel, n: NodeModel, path: PathModel, k: int, m: int)
    requires
        0 <= k < m <= n.children.len(),
    ensures
        diff_within(diff_child(o, n, path, k), diff_upto(o, n, path, m)),
    decreases m,
{
    lemma_within_concat(diff_upto(o, n, path, m - 1), diff_child(o, n, path, m - 1));
    if k < m - 1 {
        lemma_child_within_upto(o, n, path, k, m - 1);
        lemma_within_trans(diff_child(o, n, path, k), diff_upto(o, n, path, m - 1), diff_upto(o, n, path, m));
    }
}

proof fn lemma_child_within_nodes(o: NodeModel, n: NodeModel, path: PathModel, k: int)
    requires
        0 <= k < n.children.len(),
    ensures
        diff_within(diff_child(o, n, path, k), diff_nodes(o, n, path)),
{
    let up = diff_upto(o, n, path, n.children.len() as int);
    let left = DiffModel { removed: leftovers_upto(o, n, path, o.children.len() as int), ..empty_diff() };
    lemma_child_within_upto(o, n, path, k, n.children.len() as int);
    lemma_within_concat(up, left);
    lemma_within_trans(diff_child(o, n, path, k), up, diff_nodes(o, n, path));
}

/// Law: a folder kept as a folder is compared at every depth: whatever the
/// diff of the two folders finds, at the path of the folder, the diff of
/// their parents finds too, at any path of the parents, when no folder of
/// the parents holds two children of one name.
pub proof fn kept_folders_compared_at_any_depth(o: NodeModel, n: NodeModel, path: PathModel, i: int, k: int)
    requires
        forall|a: int, b: int| 0 <= a < b < o.children.len() ==> #[trigger] o.children[a].name != #[trigger] o.children[b].name,
        forall|a: int, b: int| 0 <= a < b < n.children.len() ==> #[trigger] n.children[a].name != #[trigger] n.children[b].name,
        0 <= i < o.children.len(),
        0 <= k < n.children.len(),
        o.children[i].name == n.children[k].name,
        o.children[i].node_type == NodeType::Folder,
        n.children[k].node_type == NodeType::Folder,
    ensures
        diff_within(
            diff_nodes(o.children[i], n.children[k], path.push(sanitized(n.children[k].name))),
            diff_nodes(o, n, path),
        ),
{
    lemma_last_named_unique(o.children, i);
    assert forall|j: int| 0 <= j < k implies #[trigger] n.children[j].name != n.children[k].name by {
        assert(n.children[j].name != n.children[k].name);
    }
    assert(first_of_name(n.children, k));
    assert(child_path(path, n.children[k].name) == path.push(sanitized(n.children[k].name)));
    assert(diff_child(o, n, path, k) == diff_nodes(o.children[i], n.children[k], child_path(path, n.children[k].name)));
    lemma_child_within_nodes(o, n, path, k);
}

/// Law: a new child whose name no old child has is reported as added, at
/// the path of its parents followed by its local name.
pub proof fn new_child_is_added(o: NodeModel, n: NodeModel, path: PathModel, k: int)
    requires
        0 <= k < n.children.len(),
        !has_name(o.children, n.children[k].name),
    ensures
        diff_nodes(o, n, path).added.contains((path.push(sanitized(n.children[k].name)), n.children[k])),
{
    lemma_last_named_found(o.children, n.children[k].name);
    let e = (child_path(path, n.children[k].name), n.children[k]);
    assert(diff_child(o, n, path, k).added[0] == e);
    lemma_child_within_nodes(o, n, path, k);
}

/// Law: a file kept as a file whose id changed is reported as updated, with
/// its old and new versions, when neither folder holds two children of one
/// name.
pub proof fn changed_file_is_updated(o: NodeModel, n: NodeModel, path: PathModel, i: int, k: int)
    requires
        forall|a: int, b: int| 0 <= a < b < o.children.len() ==> #[trigger] o.children[a].name != #[trigger] o.children[b].name,
        forall|a: int, b: int| 0 <= a < b < n.children.len() ==> #[trigger] n.children[a].name != #[trigger] n.children[b].name,
        0 <= i < o.children.len(),
        0 <= k < n.children.len(),
        o.children[i].name == n.children[k].name,
        o.children[i].node_type == NodeType::File,
        n.children[k].node_type == NodeType::File,
        o.children[i].id != n.children[k].id,
    ensures
        diff_nodes(o, n, path).updated.contains(
            (path.push(sanitized(n.children[k].name)), o.children[i], n.children[k]),
        ),
{
    lemma_last_named_unique(o.children, i);
    assert forall|j: int| 0 <= j < k implies #[trigger] n.children[j].name != n.children[k].name by {
        assert(n.children[j].name != n.children[k].name);
    }
    assert(first_of_name(n.children, k));
    assert(diff_child(o, n, path, k).updated[0] == (child_path(path, n.children[k].name), o.children[i], n.children[k]));
    lemma_child_within_nodes(o, n, path, k);
}

proof fn lemma_leftover_in(o: NodeModel, n: NodeModel, path: PathModel, i: int, j: int)
    requires
        forall|a: int, b: int| 0 <= a < b < o.children.len() ==> #[trigger] o.children[a].name != #[trigger] o.children[b].name,
        0 <= i < j <= o.children.len(),
        !has_name(n.children, o.children[i].name),
    ensures
        leftovers_upto(o, n, path, j).contains((child_path(path, o.children[i].name), o.children[i])),
    decreases j,
{
    let e = (child_path(path, o.children[i].name), o.children[i]);
    if i < j - 1 {
        lemma_leftover_in(o, n, path, i, j - 1);
        let prev = leftovers_upto(o, n, path, j - 1);
        let w = choose|q: int| 0 <= q < prev.len() && prev[q] == e;
        assert(leftovers_upto(o, n, path, j)[w] == e);
    } else {
        lemma_last_named_unique(o.children, i);
        let prev = leftovers_upto(o, n, path, j - 1);
        assert(leftovers_upto(o, n, path, j) == prev.push(e));
        assert(leftovers_upto(o, n, path, j)[prev.len() as int] == e);
    }
}

/// Law: an old child whose name no new child has is reported as removed,
/// at the path of its parents followed by its local name, when the old
/// folder holds no two children of one name.
pub proof fn dropped_child_is_removed(o: NodeModel, n: NodeModel, path: PathModel, i: int)
    requires
        forall|a: int, b: int| 0 <= a < b < o.children.len() ==> #[trigger] o.children[a].name != #[trigger] o.children[b].name,
        0 <= i < o.children.len(),
        !has_name(n.children, o.children[i].name),
    ensures
        diff_nodes(o, n, path).removed.contains((path.push(sanitized(o.children[i].name)), o.children[i])),
{
    lemma_leftover_in(o, n, path, i, o.children.len() as int);
    let up = diff_upto(o, n, path, n.children.len() as int);
    let left = DiffModel { removed: leftovers_upto(o, n, path, o.children.len() as int), ..empty_diff() };
    lemma_within_concat(up, left);
}

/// One printed line of a tree: the prefix, the branch (none for the root),
/// the name and the type that decides its colour.
pub struct TreeLine {
    pub prefix: String,
    pub connector: Option<&'static str>,
    pub name: String,
    pub node_type: NodeType,
}

/// Mathematical model of a [`TreeLine`].
pub struct TreeLineModel {
    pub prefix: Seq<char>,
    pub connector: Option<Seq<char>>,
    pub name: Seq<char>,
    pub node_type: NodeType,
}

impl View for TreeLine {
    type V = TreeLineModel;

    open spec fn view(&self) -> TreeLineModel {
        TreeLineModel {
            prefix: self.prefix@,
            connector: match self.connector {
                Some(c) => Some(c@),
                None => None,
            },
            name: self.name@,
            node_type: self.node_type,
        }
    }
}

pub open spec fn line_models(s: Seq<TreeLine>) -> Seq<TreeLineModel> {
    s.map_values(|l: TreeLine| l@)
}

/// The lines of `t` drawn below a parent with `prefix`: its own line with
/// the branch for a last or a middle child, then its children's lines.
pub open spec fn subtree_lines(t: NodeModel, prefix: Seq<char>, is_last: bool) -> Seq<TreeLineModel>
    decreases t, 1int, 0int,
{
    seq![
        TreeLineModel {
            prefix,
            connector: Some(crate::selector::connector_spec(is_last)),
            name: t.name,
            node_type: t.node_type,
        },
    ] + children_lines(t, crate::selector::child_prefix(prefix, is_last), t.children.len() as int)
}

/// The lines of the first `k` children of `t`, drawn with `prefix`.
pub open spec fn children_lines(t: NodeModel, prefix: Seq<char>, k: int) -> Seq<TreeLineModel>
    decreases t, 0int, k,
{
    if k <= 0 || k > t.children.len() {
        Seq::empty()
    } else {
        proof {
            assert(decreases_to!(t => t.children));
            assert(decreases_to!(t.children => t.children[k - 1]));
        }
        children_lines(t, prefix, k - 1) + subtree_lines(t.children[k - 1], prefix, k == t.children.len())
    }
}

/// The lines that print a tree: the root's name alone, then each child's
/// lines with branches.
pub open spec fn tree_lines_spec(t: NodeModel) -> Seq<TreeLineModel> {
    seq![TreeLineModel { prefix: Seq::empty(), connector: None, name: t.name, node_type: t.node_type }]
        + children_lines(t, Seq::empty(), t.children.len() as int)
}

proof fn lemma_prefix_trans(a: Seq<char>, b: Seq<char>, c: Seq<char>)
    requires
        a.is_prefix_of(b),
        b.is_prefix_of(c),
    ensures
        a.is_prefix_of(c),
{
    assert forall|i: int| 0 <= i < a.len() implies a[i] == c.subrange(0, a.len() as int)[i] by {
        assert(a[i] == b.subrange(0, a.len() as int)[i]);
        assert(b[i] == c.subrange(0, b.len() as int)[i]);
    }
    assert(a =~= c.subrange(0, a.len() as int));
}

proof fn lemma_lines_under(t: NodeModel, q: Seq<char>, b: bool)
    ensures
        forall|i: int| 0 <= i < subtree_lines(t, q, b).len() ==> q.is_prefix_of(#[trigger] subtree_lines(t, q, b)[i].prefix),
    decreases t, 1int, 0int,
{
    let cp = crate::selector::child_prefix(q, b);
    let first = seq![TreeLineModel { prefix: q, connector: Some(crate::selector::connector_spec(b)), name: t.name, node_type: t.node_type }];
    let rest = children_lines(t, cp, t.children.len() as int);
    lemma_children_lines_under(t, cp, t.children.len() as int);
    assert(q.is_prefix_of(cp)) by {
        assert(cp.subrange(0, q.len() as int) =~= q);
    }
    assert(q.is_prefix_of(q)) by {
        assert(q.subrange(0, q.len() as int) =~= q);
    }
    assert forall|i: int| 0 <= i < subtree_lines(t, q, b).len() implies q.is_prefix_of(#[trigger] subtree_lines(t, q, b)[i].prefix) by {
        if i > 0 {
            assert(subtree_lines(t, q, b)[i] == rest[i - 1]);
            lemma_prefix_trans(q, cp, rest[i - 1].prefix);
        }
    }
}

proof fn lemma_children_lines_under(t: NodeModel, q: Seq<char>, k: int)
    ensures
        forall|i: int| 0 <= i < children_lines(t, q, k).len() ==> q.is_prefix_of(#[trigger] children_lines(t, q, k)[i].prefix),
        0 < k <= t.children.len() ==> children_lines(t, q, k).len() > 0 && children_lines(t, q, k)[0].prefix == q
            && children_lines(t, q, k)[0].name == t.children[0].name,
    decreases t, 0int, k,
{
    if 0 < k <= t.children.len() {
        assert(decreases_to!(t => t.children));
        assert(decreases_to!(t.children => t.children[k - 1]));
        lemma_children_lines_under(t, q, k - 1);
        lemma_lines_under(t.children[k - 1], q, k == t.children.len());
        let a = children_lines(t, q, k - 1);
        let b = subtree_lines(t.children[k - 1], q, k == t.children.len());
        assert forall|i: int| 0 <= i < children_lines(t, q, k).len() implies q.is_prefix_of(#[trigger] children_lines(t, q, k)[i].prefix) by {
            if i < a.len() {
                assert(children_lines(t, q, k)[i] == a[i]);
            } else {
                assert(children_lines(t, q, k)[i] == b[i - a.len()]);
            }
        }
        if k == 1 {
            assert(a.len() == 0);
            assert(children_lines(t, q, k)[0] == b[0]);
        } else {
            assert(children_lines(t, q, k)[0] == a[0]);
        }
    }
}

/// Law: a node drawn below a parent with prefix `p` gets its own line with
/// prefix `p` and the branch of a last or a middle child; every line below
/// it starts with `p` and then four spaces when the node is the last child,
/// or `│` and three spaces when it is not; its first child's line has exactly
/// that prefix.
pub proof fn tree_lines_nest(t: NodeModel, p: Seq<char>, is_last: bool)
    ensures
        subtree_lines(t, p, is_last)[0].prefix == p,
        subtree_lines(t, p, is_last)[0].name == t.name,
        subtree_lines(t, p, is_last)[0].connector == Some(if is_last { "└── "@ } else { "├── "@ }),
        forall|i: int|
            1 <= i < subtree_lines(t, p, is_last).len() ==> (p + if is_last { "    "@ } else { "│   "@ }).is_prefix_of(
                #[trigger] subtree_lines(t, p, is_last)[i].prefix,
            ),
        t.children.len() > 0 ==> subtree_lines(t, p, is_last).len() > 1 && subtree_lines(t, p, is_last)[1].prefix
            == p + (if is_last { "    "@ } else { "│   "@ }) && subtree_lines(t, p, is_last)[1].name
            == t.children[0].name,
{
    let ext = if is_last { "    "@ } else { "│   "@ };
    let cp = crate::selector::child_prefix(p, is_last);
    assert(cp == p + ext);
    let rest = children_lines(t, cp, t.children.len() as int);
    lemma_children_lines_under(t, cp, t.children.len() as int);
    assert forall|i: int| 1 <= i < subtree_lines(t, p, is_last).len() implies (p + ext).is_prefix_of(
        #[trigger] subtree_lines(t, p, is_last)[i].prefix,
    ) by {
        assert(subtree_lines(t, p, is_last)[i] == rest[i - 1]);
    }
    if t.children.len() > 0 {
        assert(subtree_lines(t, p, is_last)[1] == rest[0]);
    }
}

/// Appends to `out` the lines of `node` drawn with `prefix`.
fn subtree_lines_exec(node: &Node, prefix: &String, is_last: bool, out: &mut Vec<TreeLine>)
    ensures
        line_models(final(out)@) == line_models(old(out)@) + subtree_lines(node@, prefix@, is_last),
    decreases node,
{
    let ghost o0 = line_models(out@);
    out.push(
        TreeLine {
            prefix: prefix.clone(),
            connector: Some(crate::selector::connector(is_last)),
            name: node.name.clone(),
            node_type: node.node_type,
        },
    );
    let mut child_pre = prefix.clone();
    if is_last {
        child_pre.append("    ");
    } else {
        child_pre.append("│   ");
    }
    push_children_lines(node, &child_pre, out);
    assert(line_models(out@) =~= o0 + subtree_lines(node@, prefix@, is_last));
}

/// Appends to `out` the lines of the children of `node`, drawn with `prefix`.
fn push_children_lines(node: &Node, prefix: &String, out: &mut Vec<TreeLine>)
    ensures
        line_models(final(out)@) == line_models(old(out)@) + children_lines(
            node@,
            prefix@,
            node@.children.len() as int,
        ),
    decreases node, 0int,
{
    let ghost o0 = line_models(out@);
    proof {
        lemma_models(node.children@);
    }
    let n = node.children.len();
    let mut i: usize = 0;
    assert(o0 + Seq::<TreeLineModel>::empty() =~= o0);
    while i < n
        invariant
            n == node.children@.len(),
            i <= n,
            node@.children.len() == node.children@.len(),
            forall|j: int| 0 <= j < node.children@.len() ==> #[trigger] node@.children[j] == node.children@[j]@,
            line_models(out@) == o0 + children_lines(node@, prefix@, i as int),
        decreases n - i,
    {
        proof {
            assert(decreases_to!(node => node.children));
            assert(decreases_to!(node.children => node.children@));
            assert(decreases_to!(node.children@ => node.children@[i as int]));
        }
        subtree_lines_exec(&node.children[i], prefix, i + 1 == n, out);
        assert(line_models(out@) =~= o0 + children_lines(node@, prefix@, i + 1));
        i = i + 1;
    }
}

impl Node {
    /// The lines that print this tree.
    pub fn tree_lines(&self) -> (res: Vec<TreeLine>)
        ensures
            line_models(res@) == tree_lines_spec(self@),
    {
        let mut out: Vec<TreeLine> = Vec::new();
        out.push(
            TreeLine {
                prefix: String::new(),
                connector: None,
                name: self.name.clone(),
                node_type: self.node_type,
            },
        );
        let root_prefix = String::new();
        push_children_lines(self, &root_prefix, &mut out);
        assert(line_models(out@) =~= tree_lines_spec(self@));
        out
    }
}

/// The changes between two drive trees. Each entry carries the local path
/// of the changed item.
#[derive(Debug)]
pub struct Diff {
    pub added: Vec<(Vec<String>, Node)>,
    pub removed: Vec<(Vec<String>, Node)>,
    pub updated: Vec<(Vec<String>, Node, Node)>,
}

/// The models of diff entries.
pub open spec fn entry_models(es: Seq<(Vec<String>, Node)>) -> Seq<(PathModel, NodeModel)> {
    es.map_values(|e: (Vec<String>, Node)| (path_view(e.0@), e.1@))
}

/// The models of update entries.
pub open spec fn update_models(es: Seq<(Vec<String>, Node, Node)>) -> Seq<(PathModel, NodeModel, NodeModel)> {
    es.map_values(|e: (Vec<String>, Node, Node)| (path_view(e.0@), e.1@, e.2@))
}

/// The models of a sequence of paths.
pub open spec fn path_models(ps: Seq<Vec<String>>) -> Seq<PathModel> {
    ps.map_values(|p: Vec<String>| path_view(p@))
}

impl View for Diff {
    type V = DiffModel;

    open spec fn view(&self) -> DiffModel {
        DiffModel {
            added: entry_models(self.added@),
            removed: entry_models(self.removed@),
            updated: update_models(self.updated@),
        }
    }
}

/// A copy of a path.
pub fn copy_path(p: &Vec<String>) -> (res: Vec<String>)
    ensures
        path_view(res@) == path_view(p@),
{
    let mut res: Vec<String> = Vec::new();
    let mut i: usize = 0;
    while i < p.len()
        invariant
            i <= p@.len(),
            res@.len() == i,
            path_view(res@) == path_view(p@).take(i as int),
        decreases p@.len() - i,
    {
        let ghost before = res@;
        let s = p[i].clone();
        assert(s@ == p@[i as int]@);
        res.push(s);
        assert(res@ =~= before.push(s));
        assert forall|k: int| 0 <= k < i + 1 implies #[trigger] path_view(res@)[k] == path_view(
            p@,
        ).take(i + 1)[k] by {
            assert(path_view(res@)[k] == res@[k]@);
            if k < i {
                assert(res@[k] == before[k]);
                assert(path_view(before)[k] == before[k]@);
                assert(path_view(before)[k] == path_view(p@).take(i as int)[k]);
                assert(path_view(p@).take(i as int)[k] == path_view(p@)[k]);
            } else {
                assert(res@[k] == s);
                assert(path_view(p@)[k] == p@[k]@);
            }
        }
        assert(path_view(res@) =~= path_view(p@).take(i + 1));
        i = i + 1;
    }
    assert(path_view(p@).take(i as int) =~= path_view(p@));
    res
}

/// The path of the child named `name` under `path`.
pub fn join_child(path: &Vec<String>, name: &String) -> (res: Vec<String>)
    ensures
        path_view(res@) == child_path(path_view(path@), name@),
{
    let mut res = copy_path(path);
    let ghost before = res@;
    res.push(sanitize_name(name.as_str()));
    assert(path_view(res@) =~= path_view(before).push(sanitized(name@)));
    res
}

fn copy_opt_string(o: &Option<String>) -> (res: Option<String>)
    ensures
        opt_string_view(res) == opt_string_view(*o),
{
    match o {
        Some(s) => Some(s.clone()),
        None => None,
    }
}

/// A deep copy of a node.
pub fn copy_node(n: &Node) -> (res: Node)
    ensures
        res@ == n@,
    decreases n,
{
    let mut children: Vec<Node> = Vec::new();
    let mut i: usize = 0;
    proof {
        lemma_models(n.children@);
    }
    while i < n.children.len()
        invariant
            i <= n.children@.len(),
            models(n.children@).len() == n.children@.len(),
            forall|j: int| 0 <= j < n.children@.len() ==> #[trigger] models(n.children@)[j] == n.children@[j]@,
            models(children@) == models(n.children@).take(i as int),
        decreases n.children@.len() - i,
    {
        proof {
            assert(decreases_to!(n => n.children));
            assert(decreases_to!(n.children => n.children@));
            assert(decreases_to!(n.children@ => n.children@[i as int]));
        }
        let c = copy_node(&n.children[i]);
        let ghost before = children@;
        children.push(c);
        proof {
            assert(children@.drop_last() =~= before);
            assert(models(children@) == models(before).push(children@.last()@));
            assert(models(children@) =~= models(n.children@).take(i + 1));
        }
        i = i + 1;
    }
    assert(models(n.children@).take(i as int) =~= models(n.children@));
    Node {
        name: n.name.clone(),
        node_type: n.node_type,
        id: copy_opt_string(&n.id),
        children,
    }
}

/// The index of the last of `cs` named `name`.
fn last_named_exec(cs: &Vec<Node>, name: &String) -> (res: Option<usize>)
    ensures
        match res {
            Some(i) => i < cs@.len() && last_named(models(cs@), name@) == i as int,
            None => last_named(models(cs@), name@) == -1,
        },
{
    proof {
        lemma_models(cs@);
    }
    let mut i = cs.len();
    assert(models(cs@).take(i as int) =~= models(cs@));
    while i > 0
        invariant
            i <= cs@.len(),
            models(cs@).len() == cs@.len(),
            forall|j: int| 0 <= j < cs@.len() ==> #[trigger] models(cs@)[j] == cs@[j]@,
            last_named(models(cs@), name@) == last_named(models(cs@).take(i as int), name@),
        decreases i,
    {
        assert(models(cs@).take(i as int).drop_last() =~= models(cs@).take(i - 1));
        if cs[i - 1].name == *name {
            return Some(i - 1);
        }
        i = i - 1;
    }
    None
}

/// Whether no child before the `k`-th has its name.
fn first_of_name_exec(cs: &Vec<Node>, k: usize) -> (res: bool)
    requires
        k < cs@.len(),
    ensures
        res == first_of_name(models(cs@), k as int),
{
    proof {
        lemma_models(cs@);
    }
    let mut j: usize = 0;
    while j < k
        invariant
            j <= k < cs@.len(),
            models(cs@).len() == cs@.len(),
            forall|i: int| 0 <= i < cs@.len() ==> #[trigger] models(cs@)[i] == cs@[i]@,
            forall|i: int| 0 <= i < j ==> #[trigger] models(cs@)[i].name != models(cs@)[k as int].name,
        decreases k - j,
    {
        if cs[j].name == cs[k].name {
            assert(models(cs@)[j as int].name == models(cs@)[k as int].name);
            return false;
        }
        j = j + 1;
    }
    true
}

/// Whether one of `cs` is named `name`.
fn has_name_exec(cs: &Vec<Node>, name: &String) -> (res: bool)
    ensures
        res == has_name(models(cs@), name@),
{
    proof {
        lemma_models(cs@);
    }
    let mut j: usize = 0;
    while j < cs.len()
        invariant
            j <= cs@.len(),
            models(cs@).len() == cs@.len(),
            forall|i: int| 0 <= i < cs@.len() ==> #[trigger] models(cs@)[i] == cs@[i]@,
            forall|i: int| 0 <= i < j ==> #[trigger] models(cs@)[i].name != name@,
        decreases cs@.len() - j,
    {
        if cs[j].name == *name {
            assert(models(cs@)[j as int].name == name@);
            return true;
        }
        j = j + 1;
    }
    false
}

fn opt_string_eq(a: &Option<String>, b: &Option<String>) -> (res: bool)
    ensures
        res == (opt_string_view(*a) == opt_string_view(*b)),
{
    match (a, b) {
        (Some(x), Some(y)) => *x == *y,
        (None, None) => true,
        _ => false,
    }
}

impl Diff {
    /// An empty diff.
    pub fn new() -> (res: Self)
        ensures
            res@ == empty_diff(),
    {
        let res = Diff { added: Vec::new(), removed: Vec::new(), updated: Vec::new() };
        assert(res@ =~= empty_diff());
        res
    }

    fn push_added(&mut self, path: Vec<String>, node: Node)
        ensures
            final(self)@ == concat(
                old(self)@,
                DiffModel { added: seq![(path_view(path@), node@)], ..empty_diff() },
            ),
    {
        self.added.push((path, node));
        assert(final(self)@ =~= concat(
            old(self)@,
            DiffModel { added: seq![(path_view(path@), node@)], ..empty_diff() },
        ));
    }

    fn push_removed(&mut self, path: Vec<String>, node: Node)
        ensures
            final(self)@ == concat(
                old(self)@,
                DiffModel { removed: seq![(path_view(path@), node@)], ..empty_diff() },
            ),
    {
        self.removed.push((path, node));
        assert(final(self)@ =~= concat(
            old(self)@,
            DiffModel { removed: seq![(path_view(path@), node@)], ..empty_diff() },
        ));
    }

    fn push_updated(&mut self, path: Vec<String>, old_node: Node, new_node: Node)
        ensures
            final(self)@ == concat(
                old(self)@,
                DiffModel { updated: seq![(path_view(path@), old_node@, new_node@)], ..empty_diff() },
            ),
    {
        self.updated.push((path, old_node, new_node));
        assert(final(self)@ =~= concat(
            old(self)@,
            DiffModel { updated: seq![(path_view(path@), old_node@, new_node@)], ..empty_diff() },
        ));
    }

    /// The changes that turn the tree `old` into the tree `new`.
    pub fn from_nodes(old: &Node, new: &Node) -> (res: Self)
        ensures
            res@ == diff_nodes(old@, new@, Seq::empty()),
    {
        let mut diff = Diff::new();
        let root: Vec<String> = Vec::new();
        assert(path_view(root@) =~= Seq::<Seq<char>>::empty());
        diff_recursive(old, new, &root, &mut diff);
        assert(diff@ =~= diff_nodes(old@, new@, Seq::empty()));
        diff
    }
}

proof fn lemma_concat_assoc(a: DiffModel, b: DiffModel, c: DiffModel)
    ensures
        concat(concat(a, b), c) == concat(a, concat(b, c)),
{
    assert(concat(concat(a, b), c) =~= concat(a, concat(b, c)));
}

/// Appends to `diff` the changes from `old_tree` to `new_tree`, both at `current_path`.
fn diff_recursive(old_tree: &Node, new_tree: &Node, current_path: &Vec<String>, diff: &mut Diff)
    ensures
        final(diff)@ == concat(old(diff)@, diff_nodes(old_tree@, new_tree@, path_view(current_path@))),
    decreases new_tree,
{
    let ghost o = old_tree@;
    let ghost n = new_tree@;
    let ghost path = path_view(current_path@);
    let ghost d0 = diff@;
    proof {
        lemma_models(old_tree.children@);
        lemma_models(new_tree.children@);
        assert(concat(d0, empty_diff()) =~= d0);
    }
    let mut k: usize = 0;
    while k < new_tree.children.len()
        invariant
            o == old_tree@,
            n == new_tree@,
            path == path_view(current_path@),
            k <= new_tree.children@.len(),
            n.children.len() == new_tree.children@.len(),
            o.children.len() == old_tree.children@.len(),
            forall|i: int| 0 <= i < new_tree.children@.len() ==> #[trigger] n.children[i] == new_tree.children@[i]@,
            forall|i: int| 0 <= i < old_tree.children@.len() ==> #[trigger] o.children[i] == old_tree.children@[i]@,
            diff@ == concat(d0, diff_upto(o, n, path, k as int)),
        decreases new_tree.children@.len() - k,
    {
        let c = &new_tree.children[k];
        let ghost before = diff@;
        let cp = join_child(current_path, &c.name);
        let li = last_named_exec(&old_tree.children, &c.name);
        let first = first_of_name_exec(&new_tree.children, k);
        match li {
            Some(li) if first => {
                let oc = &old_tree.children[li];
                if oc.node_type == NodeType::File && c.node_type == NodeType::File {
                    if !opt_string_eq(&oc.id, &c.id) {
                        diff.push_updated(cp, copy_node(oc), copy_node(c));
                    } else {
                        assert(diff@ =~= concat(before, empty_diff()));
                    }
                } else if oc.node_type == NodeType::Folder && c.node_type == NodeType::Folder {
                    proof {
                        assert(decreases_to!(new_tree => new_tree.children));
                        assert(decreases_to!(new_tree.children => new_tree.children@));
                        assert(decreases_to!(new_tree.children@ => new_tree.children@[k as int]));
                    }
                    diff_recursive(oc, c, &cp, diff);
                } else {
                    diff.push_added(copy_path(&cp), copy_node(c));
                    diff.push_removed(cp, copy_node(oc));
                    proof {
                        assert(diff@ =~= concat(before, diff_child(o, n, path, k as int)));
                    }
                }
            },
            _ => {
                diff.push_added(cp, copy_node(c));
            },
        }
        proof {
            lemma_concat_assoc(d0, diff_upto(o, n, path, k as int), diff_child(o, n, path, k as int));
        }
        k = k + 1;
    }
    let ghost mid = diff@;
    let mut j: usize = 0;
    assert(diff@ =~= concat(mid, DiffModel { removed: leftovers_upto(o, n, path, 0), ..empty_diff() }));
    while j < old_tree.children.len()
        invariant
            o == old_tree@,
            n == new_tree@,
            path == path_view(current_path@),
            j <= old_tree.children@.len(),
            o.children.len() == old_tree.children@.len(),
            forall|i: int| 0 <= i < old_tree.children@.len() ==> #[trigger] o.children[i] == old_tree.children@[i]@,
            diff@ == concat(mid, DiffModel { removed: leftovers_upto(o, n, path, j as int), ..empty_diff() }),
        decreases old_tree.children@.len() - j,
    {
        let oc = &old_tree.children[j];
        let ghost before = diff@;
        let li = last_named_exec(&old_tree.children, &oc.name);
        let replaced = has_name_exec(&new_tree.children, &oc.name);
        if li == Some(j) && !replaced {
            diff.push_removed(join_child(current_path, &oc.name), copy_node(oc));
            assert(diff@ =~= concat(mid, DiffModel { removed: leftovers_upto(o, n, path, j + 1), ..empty_diff() }));
        } else {
            assert(diff@ =~= concat(mid, DiffModel { removed: leftovers_upto(o, n, path, j + 1), ..empty_diff() }));
        }
        j = j + 1;
    }
    proof {
        lemma_concat_assoc(d0, diff_upto(o, n, path, n.children.len() as int), DiffModel { removed: leftovers_upto(o, n, path, o.children.len() as int), ..empty_diff() });
    }
}

} // verus!
