use vstd::prelude::*;

use crate::node::{
    copy_path, lemma_models, path_view, Node, NodeModel, NodeType, PathModel,
};
use crate::download::{plan_children, plan_of};
use crate::pool::{task_models, FileTask, TaskModel};
use crate::utils::{sanitize_name, sanitized};
use crate::text::{chars_of, decimal, push_decimal, push_spaces, string_of};

verus! {

broadcast use vstd::string::group_string_axioms;

/// How an item of the selector came to be listed.
#[derive(Clone, Copy, Debug, PartialEq, Eq, Structural)]
pub enum ItemKind {
    Normal,
    Added,
    Modified,
    Removed,
}

/// How much of an item is selected.
#[derive(Clone, Copy, Debug, PartialEq, Eq, Structural)]
pub enum Check {
    Full,
    Empty,
    Partial,
}

/// One row of the selector: a node of one of the listed trees.
#[derive(Debug)]
pub struct Item {
    pub depth: usize,
    pub path: Vec<String>,
    pub name: String,
    pub node_type: NodeType,
    pub kind: ItemKind,
    pub is_last: bool,
    pub prefix: String,
}

/// Mathematical model of an [`Item`].
pub struct ItemModel {
    pub depth: nat,
    pub path: PathModel,
    pub name: Seq<char>,
    pub node_type: NodeType,
    pub kind: ItemKind,
    pub is_last: bool,
    pub prefix: Seq<char>,
}

impl View for Item {
    type V = ItemModel;

    open spec fn view(&self) -> ItemModel {
        ItemModel {
            depth: self.depth as nat,
            path: path_view(self.path@),
            name: self.name@,
            node_type: self.node_type,
            kind: self.kind,
            is_last: self.is_last,
            prefix: self.prefix@,
        }
    }
}

pub open spec fn item_models(items: Seq<Item>) -> Seq<ItemModel> {
    items.map_values(|i: Item| i@)
}

/// The height of a tree: 1 for a node without children.
pub open spec fn height(t: NodeModel) -> nat
    decreases t, 1int, 0int,
{
    1 + max_child_height(t, t.children.len() as int)
}

/// The greatest height among the first `k` children of `t`.
pub open spec fn max_child_height(t: NodeModel, k: int) -> nat
    decreases t, 0int, k,
{
    if k <= 0 || k > t.children.len() {
        0
    } else {
        proof {
            assert(decreases_to!(t => t.children));
            assert(decreases_to!(t.children => t.children[k - 1]));
        }
        let h = height(t.children[k - 1]);
        let m = max_child_height(t, k - 1);
        if h > m {
            h
        } else {
            m
        }
    }
}

proof fn lemma_child_height(t: NodeModel, i: int, k: int)
    requires
        0 <= i < k <= t.children.len(),
    ensures
        height(t.children[i]) <= max_child_height(t, k),
    decreases k,
{
    if i < k - 1 {
        lemma_child_height(t, i, k - 1);
    }
}

/// The prefix that the rows below a row drawn with `prefix` carry.
pub open spec fn child_prefix(prefix: Seq<char>, is_last: bool) -> Seq<char> {
    prefix + if is_last {
        "    "@
    } else {
        "│   "@
    }
}

/// The rows of the tree `t` placed in `base`: its own row, then the rows of
/// each child in order, one level deeper.
pub open spec fn flat(
    t: NodeModel,
    base: PathModel,
    kind: ItemKind,
    depth: nat,
    is_last: bool,
    prefix: Seq<char>,
) -> Seq<ItemModel>
    decreases t, 1int, 0int,
{
    let path = base.push(sanitized(t.name));
    seq![ItemModel { depth, path, name: t.name, node_type: t.node_type, kind, is_last, prefix }]
        + flat_children(
        t,
        path,
        kind,
        (depth + 1) as nat,
        child_prefix(prefix, is_last),
        t.children.len() as int,
    )
}

/// The rows of the first `k` children of `t`.
pub open spec fn flat_children(
    t: NodeModel,
    path: PathModel,
    kind: ItemKind,
    depth: nat,
    prefix: Seq<char>,
    k: int,
) -> Seq<ItemModel>
    decreases t, 0int, k,
{
    if k <= 0 || k > t.children.len() {
        Seq::empty()
    } else {
        proof {
            assert(decreases_to!(t => t.children));
            assert(decreases_to!(t.children => t.children[k - 1]));
        }
        flat_children(t, path, kind, depth, prefix, k - 1) + flat(
            t.children[k - 1],
            path,
            kind,
            depth,
            k == t.children.len(),
            prefix,
        )
    }
}

/// The rows for the first `k` listed trees.
pub open spec fn items_upto(roots: Seq<(NodeModel, PathModel, ItemKind)>, k: int) -> Seq<ItemModel>
    decreases k,
{
    if k <= 0 || k > roots.len() {
        Seq::empty()
    } else {
        items_upto(roots, k - 1) + flat(
            roots[k - 1].0,
            roots[k - 1].1,
            roots[k - 1].2,
            0,
            k == roots.len(),
            Seq::empty(),
        )
    }
}

pub open spec fn root_models(roots: Seq<(Node, Vec<String>, ItemKind)>) -> Seq<(NodeModel, PathModel, ItemKind)> {
    roots.map_values(|r: (Node, Vec<String>, ItemKind)| (r.0@, path_view(r.1@), r.2))
}

fn copy_string(s: &String) -> (res: String)
    ensures
        res@ == s@,
{
    s.clone()
}

/// Appends to `out` the rows of `node`, placed in `base`.
fn flatten(
    node: &Node,
    base: &Vec<String>,
    kind: ItemKind,
    depth: usize,
    is_last: bool,
    prefix: &String,
    out: &mut Vec<Item>,
)
    requires
        depth + height(node@) <= usize::MAX,
    ensures
        item_models(final(out)@) == item_models(old(out)@) + flat(
            node@,
            path_view(base@),
            kind,
            depth as nat,
            is_last,
            prefix@,
        ),
    decreases node,
{
    let ghost o0 = item_models(out@);
    let mut path = copy_path(base);
    path.push(sanitize_name(node.name.as_str()));
    assert(path_view(path@) =~= path_view(base@).push(sanitized(node.name@)));
    let item = Item {
        depth,
        path: copy_path(&path),
        name: copy_string(&node.name),
        node_type: node.node_type,
        kind,
        is_last,
        prefix: copy_string(prefix),
    };
    out.push(item);
    let mut child_pre = copy_string(prefix);
    if is_last {
        child_pre.append("    ");
    } else {
        child_pre.append("│   ");
    }
    let ghost head = seq![
        ItemModel {
            depth: depth as nat,
            path: path_view(path@),
            name: node@.name,
            node_type: node@.node_type,
            kind,
            is_last,
            prefix: prefix@,
        },
    ];
    assert(item_models(out@) =~= o0 + head);
    proof {
        lemma_models(node.children@);
    }
    let n = node.children.len();
    let mut i: usize = 0;
    assert(o0 + head + Seq::<ItemModel>::empty() =~= o0 + head);
    while i < n
        invariant
            n == node.children@.len(),
            i <= n,
            depth + height(node@) <= usize::MAX,
            node@.children.len() == node.children@.len(),
            forall|j: int| 0 <= j < node.children@.len() ==> #[trigger] node@.children[j] == node.children@[j]@,
            child_pre@ == child_prefix(prefix@, is_last),
            item_models(out@) == o0 + head + flat_children(
                node@,
                path_view(path@),
                kind,
                (depth + 1) as nat,
                child_pre@,
                i as int,
            ),
        decreases n - i,
    {
        proof {
            assert(decreases_to!(node => node.children));
            assert(decreases_to!(node.children => node.children@));
            assert(decreases_to!(node.children@ => node.children@[i as int]));
            lemma_child_height(node@, i as int, n as int);
        }
        let ghost before = item_models(out@);
        flatten(&node.children[i], &path, kind, depth + 1, i + 1 == n, &child_pre, out);
        assert(item_models(out@) =~= o0 + head + flat_children(
            node@,
            path_view(path@),
            kind,
            (depth + 1) as nat,
            child_pre@,
            i + 1,
        ));
        i = i + 1;
    }
    assert(o0 + head + flat_children(
        node@,
        path_view(path@),
        kind,
        (depth + 1) as nat,
        child_pre@,
        n as int,
    ) =~= o0 + flat(node@, path_view(base@), kind, depth as nat, is_last, prefix@));
}

/// The rows of the selector for the listed trees, each placed in its folder
/// and marked with its kind.
pub fn build_items(roots: &Vec<(Node, Vec<String>, ItemKind)>) -> (res: Vec<Item>)
    requires
        forall|i: int| 0 <= i < roots@.len() ==> height(#[trigger] roots@[i].0@) <= usize::MAX,
    ensures
        item_models(res@) == items_upto(root_models(roots@), roots@.len() as int),
{
    let mut out: Vec<Item> = Vec::new();
    let n = roots.len();
    let empty_prefix = String::new();
    let ghost rm = root_models(roots@);
    assert(item_models(out@) =~= Seq::<ItemModel>::empty());
    let mut i: usize = 0;
    while i < n
        invariant
            n == roots@.len(),
            i <= n,
            rm == root_models(roots@),
            empty_prefix@ == Seq::<char>::empty(),
            forall|j: int| 0 <= j < roots@.len() ==> height(#[trigger] roots@[j].0@) <= usize::MAX,
            item_models(out@) == items_upto(rm, i as int),
        decreases n - i,
    {
        let r = &roots[i];
        flatten(&r.0, &r.1, r.2, 0, i + 1 == n, &empty_prefix, &mut out);
        assert(item_models(out@) =~= items_upto(rm, i + 1));
        i = i + 1;
    }
    out
}

/// Whether two paths are the same.
pub fn paths_equal(a: &Vec<String>, b: &Vec<String>) -> (res: bool)
    ensures
        res == (path_view(a@) == path_view(b@)),
{
    if a.len() != b.len() {
        assert(path_view(a@).len() != path_view(b@).len());
        return false;
    }
    let mut i: usize = 0;
    while i < a.len()
        invariant
            a@.len() == b@.len(),
            i <= a@.len(),
            forall|j: int| 0 <= j < i ==> #[trigger] a@[j]@ == b@[j]@,
        decreases a@.len() - i,
    {
        if a[i] != b[i] {
            assert(path_view(a@)[i as int] != path_view(b@)[i as int]);
            return false;
        }
        i = i + 1;
    }
    assert(path_view(a@) =~= path_view(b@));
    true
}

/// A set of selected paths.
pub struct Selection {
    paths: Vec<Vec<String>>,
}

impl View for Selection {
    type V = Set<PathModel>;

    closed spec fn view(&self) -> Set<PathModel> {
        crate::node::path_models(self.paths@).to_set()
    }
}

impl Selection {
    /// No path is held twice.
    #[verifier::type_invariant]
    spec fn no_path_twice(&self) -> bool {
        crate::node::path_models(self.paths@).no_duplicates()
    }

    /// The empty selection.
    pub fn new() -> (res: Self)
        ensures
            res@ == Set::<PathModel>::empty(),
    {
        let res = Selection { paths: Vec::new() };
        assert(res@ =~= Set::<PathModel>::empty());
        res
    }

    /// Whether `path` is selected.
    pub fn contains(&self, path: &Vec<String>) -> (res: bool)
        ensures
            res == self@.contains(path_view(path@)),
    {
        let ghost m = crate::node::path_models(self.paths@);
        let mut i: usize = 0;
        while i < self.paths.len()
            invariant
                m == crate::node::path_models(self.paths@),
                i <= self.paths@.len(),
                forall|j: int| 0 <= j < i ==> #[trigger] m[j] != path_view(path@),
            decreases self.paths@.len() - i,
        {
            if paths_equal(&self.paths[i], path) {
                assert(m[i as int] == path_view(path@));
                return true;
            }
            i = i + 1;
        }
        false
    }

    /// Where `path` is held, if it is selected.
    fn position(&self, path: &Vec<String>) -> (res: Option<usize>)
        ensures
            match res {
                Some(i) => i < self.paths@.len() && crate::node::path_models(self.paths@)[i as int]
                    == path_view(path@),
                None => !self@.contains(path_view(path@)),
            },
    {
        let ghost m = crate::node::path_models(self.paths@);
        let mut i: usize = 0;
        while i < self.paths.len()
            invariant
                m == crate::node::path_models(self.paths@),
                i <= self.paths@.len(),
                forall|j: int| 0 <= j < i ==> #[trigger] m[j] != path_view(path@),
            decreases self.paths@.len() - i,
        {
            if paths_equal(&self.paths[i], path) {
                return Some(i);
            }
            i = i + 1;
        }
        None
    }

    /// Selects `path`.
    pub fn insert(&mut self, path: &Vec<String>)
        ensures
            final(self)@ == old(self)@.insert(path_view(path@)),
    {
        proof {
            use_type_invariant(&*self);
        }
        if !self.contains(path) {
            let ghost before = crate::node::path_models(self.paths@);
            let mut paths: Vec<Vec<String>> = Vec::new();
            std::mem::swap(&mut paths, &mut self.paths);
            paths.push(copy_path(path));
            assert(crate::node::path_models(paths@) =~= before + seq![path_view(path@)]);
            proof {
                Seq::lemma_to_set_insert_commutes(before, path_view(path@));
            }
            assert(crate::node::path_models(paths@).no_duplicates()) by {
                let after = crate::node::path_models(paths@);
                assert forall|i: int, j: int| 0 <= i < after.len() && 0 <= j < after.len() && i != j implies after[i] != after[j] by {
                    if i == before.len() as int {
                        assert(!before.contains(after[i]));
                        assert(after[j] == before[j]);
                    } else if j == before.len() as int {
                        assert(!before.contains(after[j]));
                        assert(after[i] == before[i]);
                    } else {
                        assert(after[i] == before[i]);
                        assert(after[j] == before[j]);
                    }
                }
            }
            self.paths = paths;
            assert(self@ =~= old(self)@.insert(path_view(path@)));
        } else {
            assert(self@ =~= old(self)@.insert(path_view(path@)));
        }
    }

    /// Deselects `path`.
    pub fn remove(&mut self, path: &Vec<String>)
        ensures
            final(self)@ == old(self)@.remove(path_view(path@)),
    {
        proof {
            use_type_invariant(&*self);
        }
        match self.position(path) {
            None => {
                assert(self@ =~= old(self)@.remove(path_view(path@)));
            },
            Some(i) => {
                let ghost m = crate::node::path_models(self.paths@);
                let mut paths: Vec<Vec<String>> = Vec::new();
                std::mem::swap(&mut paths, &mut self.paths);
                let _ = paths.remove(i);
                let ghost after = crate::node::path_models(paths@);
                assert(after =~= m.remove(i as int));
                assert forall|x: PathModel| after.contains(x) <==> (m.contains(x) && x != path_view(path@)) by {
                    if after.contains(x) {
                        let k = choose|k: int| 0 <= k < after.len() && after[k] == x;
                        let j = if k < i { k } else { k + 1 };
                        assert(m[j] == x);
                        assert(j != i);
                    }
                    if m.contains(x) && x != path_view(path@) {
                        let j = choose|j: int| 0 <= j < m.len() && m[j] == x;
                        assert(j != i);
                        if j < i {
                            assert(after[j] == x);
                        } else {
                            assert(after[j - 1] == x);
                        }
                    }
                }
                assert(after.no_duplicates()) by {
                    assert forall|a: int, b: int| 0 <= a < after.len() && 0 <= b < after.len() && a != b implies after[a] != after[b] by {
                        let ja = if a < i { a } else { a + 1 };
                        let jb = if b < i { b } else { b + 1 };
                        assert(after[a] == m[ja]);
                        assert(after[b] == m[jb]);
                    }
                }
                self.paths = paths;
                assert(self@ =~= old(self)@.remove(path_view(path@)));
            },
        }
    }

    /// The selected paths, each once.
    pub fn to_vec(&self) -> (res: Vec<Vec<String>>)
        ensures
            crate::node::path_models(res@).to_set() == self@,
            crate::node::path_models(res@).no_duplicates(),
    {
        proof {
            use_type_invariant(self);
        }
        let mut res: Vec<Vec<String>> = Vec::new();
        let mut i: usize = 0;
        while i < self.paths.len()
            invariant
                i <= self.paths@.len(),
                res@.len() == i,
                crate::node::path_models(res@) == crate::node::path_models(self.paths@).take(i as int),
            decreases self.paths@.len() - i,
        {
            let ghost before = res@;
            let p = copy_path(&self.paths[i]);
            res.push(p);
            assert(res@ =~= before.push(p));
            let ghost m = crate::node::path_models(self.paths@);
            assert forall|k: int| 0 <= k < i + 1 implies #[trigger] crate::node::path_models(res@)[k]
                == m.take(i + 1)[k] by {
                if k < i {
                    assert(res@[k] == before[k]);
                    assert(crate::node::path_models(before)[k] == m.take(i as int)[k]);
                } else {
                    assert(res@[k] == p);
                }
            }
            assert(crate::node::path_models(res@) =~= m.take(i + 1));
            i = i + 1;
        }
        assert(crate::node::path_models(self.paths@).take(i as int) =~= crate::node::path_models(self.paths@));
        res
    }

    /// Deselects everything.
    pub fn clear(&mut self)
        ensures
            final(self)@ == Set::<PathModel>::empty(),
    {
        self.paths = Vec::new();
        assert(self@ =~= Set::<PathModel>::empty());
    }

    /// The number of selected paths.
    pub fn len(&self) -> (res: usize)
        ensures
            res == self@.len(),
            self@.finite(),
    {
        proof {
            use_type_invariant(self);
            crate::node::path_models(self.paths@).unique_seq_to_set();
            vstd::seq_lib::seq_to_set_is_finite(crate::node::path_models(self.paths@));
        }
        self.paths.len()
    }

    /// Whether both selections hold the same paths.
    pub fn same_as(&self, other: &Selection) -> (res: bool)
        ensures
            res == (self@ == other@),
    {
        let ghost m = crate::node::path_models(self.paths@);
        let ghost mo = crate::node::path_models(other.paths@);
        let mut i: usize = 0;
        while i < self.paths.len()
            invariant
                m == crate::node::path_models(self.paths@),
                i <= self.paths@.len(),
                forall|j: int| 0 <= j < i ==> other@.contains(#[trigger] m[j]),
            decreases self.paths@.len() - i,
        {
            if !other.contains(&self.paths[i]) {
                assert(self@.contains(m[i as int]));
                return false;
            }
            i = i + 1;
        }
        let mut k: usize = 0;
        while k < other.paths.len()
            invariant
                m == crate::node::path_models(self.paths@),
                mo == crate::node::path_models(other.paths@),
                k <= other.paths@.len(),
                forall|j: int| 0 <= j < self.paths@.len() ==> other@.contains(#[trigger] m[j]),
                forall|j: int| 0 <= j < k ==> self@.contains(#[trigger] mo[j]),
            decreases other.paths@.len() - k,
        {
            if !self.contains(&other.paths[k]) {
                assert(other@.contains(mo[k as int]));
                return false;
            }
            k = k + 1;
        }
        assert forall|x: PathModel| self@.contains(x) <==> other@.contains(x) by {
            if self@.contains(x) {
                let j = choose|j: int| 0 <= j < m.len() && m[j] == x;
            }
            if other@.contains(x) {
                let j = choose|j: int| 0 <= j < mo.len() && mo[j] == x;
            }
        }
        assert(self@ =~= other@);
        true
    }
}

/// The tasks of `tasks` whose paths are selected in `sel`, in order.
pub open spec fn selected_tasks_spec(tasks: Seq<TaskModel>, sel: Set<PathModel>) -> Seq<TaskModel>
    decreases tasks.len(),
{
    if tasks.len() == 0 {
        Seq::empty()
    } else {
        let prev = selected_tasks_spec(tasks.drop_last(), sel);
        if sel.contains(tasks.last().path) {
            prev.push(tasks.last())
        } else {
            prev
        }
    }
}

/// The tasks of `tasks` whose paths are selected, in order.
pub fn selected_tasks(tasks: &Vec<FileTask>, sel: &Selection) -> (res: Vec<FileTask>)
    ensures
        task_models(res@) == selected_tasks_spec(task_models(tasks@), sel@),
{
    let ghost all = task_models(tasks@);
    let mut res: Vec<FileTask> = Vec::new();
    let mut i: usize = 0;
    while i < tasks.len()
        invariant
            all == task_models(tasks@),
            i <= tasks@.len(),
            task_models(res@) == selected_tasks_spec(all.take(i as int), sel@),
        decreases tasks@.len() - i,
    {
        let t = &tasks[i];
        assert(all.take(i + 1).drop_last() =~= all.take(i as int));
        assert(all.take(i + 1).last() == t@);
        if sel.contains(&t.path) {
            let copy = FileTask { id: t.id.clone(), name: t.name.clone(), path: copy_path(&t.path) };
            let ghost before = res@;
            res.push(copy);
            assert(task_models(res@) =~= task_models(before).push(t@));
        }
        i = i + 1;
    }
    assert(all.take(i as int) =~= all);
    res
}

/// Whether the folder `dir` holds the file at `path`, directly or further down.
pub open spec fn holds(dir: PathModel, path: PathModel) -> bool {
    dir.len() < path.len() && path.subrange(0, dir.len() as int) == dir
}

/// Whether some task of `tasks` lies in the folder `dir`.
pub open spec fn holds_some(dir: PathModel, tasks: Seq<TaskModel>) -> bool {
    exists|i: int| 0 <= i < tasks.len() && holds(dir, #[trigger] tasks[i].path)
}

/// The folders of `dirs` to create once `chosen` of the files `all` are
/// chosen: those that hold a chosen file, and those that hold no file at all;
/// a folder whose files were all left out is not created.
pub open spec fn dirs_to_create_spec(dirs: Seq<PathModel>, all: Seq<TaskModel>, chosen: Seq<TaskModel>) -> Seq<PathModel>
    decreases dirs.len(),
{
    if dirs.len() == 0 {
        Seq::empty()
    } else {
        let prev = dirs_to_create_spec(dirs.drop_last(), all, chosen);
        let d = dirs.last();
        if holds_some(d, chosen) || !holds_some(d, all) {
            prev.push(d)
        } else {
            prev
        }
    }
}

/// Whether the folder `dir` holds the file at `path`.
pub fn path_holds(dir: &Vec<String>, path: &Vec<String>) -> (res: bool)
    ensures
        res == holds(path_view(dir@), path_view(path@)),
{
    let ghost d = path_view(dir@);
    let ghost p = path_view(path@);
    if dir.len() >= path.len() {
        return false;
    }
    let mut i: usize = 0;
    while i < dir.len()
        invariant
            d == path_view(dir@),
            p == path_view(path@),
            dir@.len() < path@.len(),
            i <= dir@.len(),
            forall|k: int| 0 <= k < i ==> d[k] == p[k],
        decreases dir@.len() - i,
    {
        if dir[i] != path[i] {
            assert(d[i as int] != p.subrange(0, d.len() as int)[i as int]);
            return false;
        }
        i = i + 1;
    }
    assert(p.subrange(0, d.len() as int) =~= d);
    true
}

fn holds_some_exec(dir: &Vec<String>, tasks: &Vec<FileTask>) -> (res: bool)
    ensures
        res == holds_some(path_view(dir@), task_models(tasks@)),
{
    let ghost m = task_models(tasks@);
    let mut i: usize = 0;
    while i < tasks.len()
        invariant
            m == task_models(tasks@),
            i <= tasks@.len(),
            forall|k: int| 0 <= k < i ==> !holds(path_view(dir@), #[trigger] m[k].path),
        decreases tasks@.len() - i,
    {
        if path_holds(dir, &tasks[i].path) {
            assert(holds(path_view(dir@), m[i as int].path));
            return true;
        }
        i = i + 1;
    }
    false
}

/// The folders of `dirs` to create once `chosen` of the files `all` are
/// chosen: those that hold a chosen file, and those that hold no file at all.
pub fn dirs_to_create(dirs: &Vec<Vec<String>>, all: &Vec<FileTask>, chosen: &Vec<FileTask>) -> (res: Vec<Vec<String>>)
    ensures
        crate::node::path_models(res@) == dirs_to_create_spec(
            crate::node::path_models(dirs@),
            task_models(all@),
            task_models(chosen@),
        ),
{
    let ghost dm = crate::node::path_models(dirs@);
    let ghost am = task_models(all@);
    let ghost cm = task_models(chosen@);
    let mut res: Vec<Vec<String>> = Vec::new();
    let mut i: usize = 0;
    while i < dirs.len()
        invariant
            dm == crate::node::path_models(dirs@),
            am == task_models(all@),
            cm == task_models(chosen@),
            i <= dirs@.len(),
            crate::node::path_models(res@) == dirs_to_create_spec(dm.take(i as int), am, cm),
        decreases dirs@.len() - i,
    {
        let d = &dirs[i];
        assert(dm.take(i + 1).drop_last() =~= dm.take(i as int));
        assert(dm.take(i + 1).last() == path_view(d@));
        if holds_some_exec(d, chosen) || !holds_some_exec(d, all) {
            let ghost before = res@;
            res.push(copy_path(d));
            assert(crate::node::path_models(res@) =~= crate::node::path_models(before).push(path_view(d@)));
        }
        i = i + 1;
    }
    assert(dm.take(i as int) =~= dm);
    res
}

proof fn lemma_selected_all(tasks: Seq<TaskModel>, sel: Set<PathModel>)
    requires
        forall|i: int| 0 <= i < tasks.len() ==> sel.contains(#[trigger] tasks[i].path),
    ensures
        selected_tasks_spec(tasks, sel) == tasks,
    decreases tasks.len(),
{
    if tasks.len() > 0 {
        let d = tasks.drop_last();
        assert forall|i: int| 0 <= i < d.len() implies sel.contains(#[trigger] d[i].path) by {
            assert(d[i] == tasks[i]);
        }
        lemma_selected_all(d, sel);
        assert(sel.contains(tasks[tasks.len() - 1].path));
        assert(d.push(tasks.last()) =~= tasks);
    }
}

proof fn lemma_file_paths_concat(a: Seq<ItemModel>, b: Seq<ItemModel>)
    ensures
        all_file_paths(a + b) == all_file_paths(a).union(all_file_paths(b)),
{
    let c = a + b;
    assert forall|p: PathModel| all_file_paths(c).contains(p) <==> (all_file_paths(a).contains(p)
        || all_file_paths(b).contains(p)) by {
        if all_file_paths(c).contains(p) {
            let j = choose|j: int| 0 <= j < c.len() && #[trigger] c[j].node_type == NodeType::File && c[j].path == p;
            if j < a.len() {
                assert(a[j] == c[j]);
            } else {
                assert(b[j - a.len()] == c[j]);
            }
        }
        if all_file_paths(a).contains(p) {
            let j = choose|j: int| 0 <= j < a.len() && #[trigger] a[j].node_type == NodeType::File && a[j].path == p;
            assert(c[j] == a[j]);
        }
        if all_file_paths(b).contains(p) {
            let j = choose|j: int| 0 <= j < b.len() && #[trigger] b[j].node_type == NodeType::File && b[j].path == p;
            assert(c[j + a.len()] == b[j]);
        }
    }
    assert(all_file_paths(c) =~= all_file_paths(a).union(all_file_paths(b)));
}

proof fn lemma_planned_rows(t: NodeModel, base: PathModel, kind: ItemKind, depth: nat, is_last: bool, prefix: Seq<char>)
    ensures
        forall|i: int| 0 <= i < plan_of(t, base).tasks.len() ==> all_file_paths(
            flat(t, base, kind, depth, is_last, prefix),
        ).contains(#[trigger] plan_of(t, base).tasks[i].path),
    decreases t, 1int, 0int,
{
    let path = base.push(sanitized(t.name));
    let row = seq![ItemModel { depth, path, name: t.name, node_type: t.node_type, kind, is_last, prefix }];
    let rest = flat_children(t, path, kind, (depth + 1) as nat, child_prefix(prefix, is_last), t.children.len() as int);
    lemma_file_paths_concat(row, rest);
    if t.node_type == NodeType::Folder {
        lemma_planned_rows_children(t, path, kind, (depth + 1) as nat, child_prefix(prefix, is_last), t.children.len() as int);
        assert(plan_of(t, base).tasks =~= plan_children(t, path, t.children.len() as int).tasks);
    } else if t.id is Some {
        assert(row[0].node_type == NodeType::File && row[0].path == path);
        assert(all_file_paths(row).contains(path));
    }
}

proof fn lemma_planned_rows_children(t: NodeModel, path: PathModel, kind: ItemKind, depth: nat, prefix: Seq<char>, k: int)
    ensures
        forall|i: int| 0 <= i < plan_children(t, path, k).tasks.len() ==> all_file_paths(
            flat_children(t, path, kind, depth, prefix, k),
        ).contains(#[trigger] plan_children(t, path, k).tasks[i].path),
    decreases t, 0int, k,
{
    if 0 < k <= t.children.len() {
        assert(decreases_to!(t => t.children));
        assert(decreases_to!(t.children => t.children[k - 1]));
        lemma_planned_rows_children(t, path, kind, depth, prefix, k - 1);
        lemma_planned_rows(t.children[k - 1], path, kind, depth, k == t.children.len(), prefix);
        let a = flat_children(t, path, kind, depth, prefix, k - 1);
        let b = flat(t.children[k - 1], path, kind, depth, k == t.children.len(), prefix);
        lemma_file_paths_concat(a, b);
        let pa = plan_children(t, path, k - 1).tasks;
        let pb = plan_of(t.children[k - 1], path).tasks;
        assert forall|i: int| 0 <= i < plan_children(t, path, k).tasks.len() implies all_file_paths(
            a + b,
        ).contains(#[trigger] plan_children(t, path, k).tasks[i].path) by {
            assert(plan_children(t, path, k).tasks == pa + pb);
            if i < pa.len() {
                assert((pa + pb)[i] == pa[i]);
            } else {
                assert((pa + pb)[i] == pb[i - pa.len()]);
            }
        }
    }
}

/// Law: as the selector starts, with every file of the tree `t` selected,
/// the files kept for download are all those that the plan of `t` fetches.
pub proof fn selecting_all_keeps_every_task(t: NodeModel, base: PathModel, kind: ItemKind)
    ensures
        selected_tasks_spec(
            plan_of(t, base).tasks,
            all_file_paths(items_upto(seq![(t, base, kind)], 1)),
        ) == plan_of(t, base).tasks,
{
    let roots = seq![(t, base, kind)];
    let items = items_upto(roots, 1);
    assert(roots[0] == (t, base, kind));
    assert(items_upto(roots, 0) =~= Seq::<ItemModel>::empty());
    assert(items =~= flat(t, base, kind, 0, true, Seq::empty()));
    lemma_planned_rows(t, base, kind, 0, true, Seq::empty());
    lemma_selected_all(plan_of(t, base).tasks, all_file_paths(items));
}

/// The first row at or after `j` that is not deeper than `depth`, or the end.
pub open spec fn desc_end_from(items: Seq<ItemModel>, depth: nat, j: int) -> int
    decreases items.len() - j,
{
    if j < 0 || j >= items.len() {
        items.len() as int
    } else if items[j].depth <= depth {
        j
    } else {
        desc_end_from(items, depth, j + 1)
    }
}

/// The end of the rows below row `idx`: its descendants are the rows
/// `idx + 1 .. desc_end(items, idx)`.
pub open spec fn desc_end(items: Seq<ItemModel>, idx: int) -> int {
    desc_end_from(items, items[idx].depth, idx + 1)
}

pub proof fn lemma_desc_end_from(items: Seq<ItemModel>, depth: nat, j: int)
    requires
        0 <= j <= items.len(),
    ensures
        j <= desc_end_from(items, depth, j) <= items.len(),
        forall|k: int| j <= k < desc_end_from(items, depth, j) ==> #[trigger] items[k].depth > depth,
        desc_end_from(items, depth, j) < items.len() ==> items[desc_end_from(items, depth, j)].depth <= depth,
    decreases items.len() - j,
{
    if j < items.len() && items[j].depth > depth {
        lemma_desc_end_from(items, depth, j + 1);
    }
}

/// The rows below row `idx`: those that follow it and are deeper.
pub fn descendants(items: &Vec<Item>, idx: usize) -> (res: Vec<usize>)
    requires
        idx < items@.len(),
    ensures
        res@ == Seq::new(
            (desc_end(item_models(items@), idx as int) - idx - 1) as nat,
            |k: int| (idx + 1 + k) as usize,
        ),
{
    let ghost m = item_models(items@);
    let len = items.len();
    let depth = items[idx].depth;
    let mut res: Vec<usize> = Vec::new();
    let mut j = idx + 1;
    proof {
        lemma_desc_end_from(m, depth as nat, idx + 1);
    }
    while j < items.len() && items[j].depth > depth
        invariant
            m == item_models(items@),
            idx < j <= items@.len(),
            depth == m[idx as int].depth,
            desc_end(m, idx as int) == desc_end_from(m, depth as nat, j as int),
            res@ == Seq::new((j - idx - 1) as nat, |k: int| (idx + 1 + k) as usize),
        decreases items@.len() - j,
    {
        res.push(j);
        assert(res@ =~= Seq::new((j + 1 - idx - 1) as nat, |k: int| (idx + 1 + k) as usize));
        j = j + 1;
    }
    res
}

/// Whether some row in `lo .. hi` is a file.
pub open spec fn has_file_in(items: Seq<ItemModel>, lo: int, hi: int) -> bool {
    exists|j: int| lo <= j < hi && #[trigger] items[j].node_type == NodeType::File
}

/// Whether some file row in `lo .. hi` is selected.
pub open spec fn some_file_selected(items: Seq<ItemModel>, lo: int, hi: int, sel: Set<PathModel>) -> bool {
    exists|j: int| lo <= j < hi && #[trigger] items[j].node_type == NodeType::File && sel.contains(items[j].path)
}

/// Whether every file row in `lo .. hi` is selected.
pub open spec fn all_files_selected(items: Seq<ItemModel>, lo: int, hi: int, sel: Set<PathModel>) -> bool {
    forall|j: int| lo <= j < hi && #[trigger] items[j].node_type == NodeType::File ==> sel.contains(items[j].path)
}

/// How much of row `idx` is selected. A row with nothing below it is full
/// when its path is selected. A row with files below it is full when all of
/// them are selected, empty when none is, partial otherwise. A row with only
/// folders below it is full (empty) when all of them are full (empty), and
/// partial otherwise.
pub open spec fn check_spec(items: Seq<ItemModel>, idx: int, sel: Set<PathModel>) -> Check
    decreases items.len() - idx, items.len() + 1,
{
    if idx < 0 || idx >= items.len() {
        Check::Empty
    } else {
        let end = desc_end(items, idx);
        proof {
            lemma_desc_end_from(items, items[idx].depth, idx + 1);
        }
        if end <= idx + 1 {
            if sel.contains(items[idx].path) {
                Check::Full
            } else {
                Check::Empty
            }
        } else if !has_file_in(items, idx + 1, end) {
            if folders_all(items, idx, idx + 1, end, sel, Check::Full) {
                Check::Full
            } else if folders_all(items, idx, idx + 1, end, sel, Check::Empty) {
                Check::Empty
            } else {
                Check::Partial
            }
        } else if !some_file_selected(items, idx + 1, end, sel) {
            Check::Empty
        } else if all_files_selected(items, idx + 1, end, sel) {
            Check::Full
        } else {
            Check::Partial
        }
    }
}

/// Whether every folder row in `j .. end`, below row `idx`, is `target`.
pub open spec fn folders_all(
    items: Seq<ItemModel>,
    idx: int,
    j: int,
    end: int,
    sel: Set<PathModel>,
    target: Check,
) -> bool
    decreases items.len() - idx, end - j,
{
    if j >= end || j <= idx || end > items.len() {
        true
    } else {
        (items[j].node_type == NodeType::Folder ==> check_spec(items, j, sel) == target)
            && folders_all(items, idx, j + 1, end, sel, target)
    }
}

proof fn lemma_folders_all_step(items: Seq<ItemModel>, idx: int, j: int, end: int, sel: Set<PathModel>, target: Check)
    requires
        idx < j < end <= items.len(),
    ensures
        folders_all(items, idx, j, end, sel, target) == ((items[j].node_type == NodeType::Folder
            ==> check_spec(items, j, sel) == target) && folders_all(items, idx, j + 1, end, sel, target)),
{
}

proof fn lemma_extend_ranges(items: Seq<ItemModel>, lo: int, hi: int, sel: Set<PathModel>)
    requires
        lo <= hi < items.len(),
    ensures
        has_file_in(items, lo, hi + 1) == (has_file_in(items, lo, hi) || items[hi].node_type
            == NodeType::File),
        some_file_selected(items, lo, hi + 1, sel) == (some_file_selected(items, lo, hi, sel) || (
        items[hi].node_type == NodeType::File && sel.contains(items[hi].path))),
        all_files_selected(items, lo, hi + 1, sel) == (all_files_selected(items, lo, hi, sel) && (
        items[hi].node_type == NodeType::File ==> sel.contains(items[hi].path))),
        file_paths_in(items, lo, hi + 1) == if items[hi].node_type == NodeType::File {
            file_paths_in(items, lo, hi).insert(items[hi].path)
        } else {
            file_paths_in(items, lo, hi)
        },
{
    if has_file_in(items, lo, hi + 1) {
        let j = choose|j: int| lo <= j < hi + 1 && #[trigger] items[j].node_type == NodeType::File;
        if j < hi {
            assert(has_file_in(items, lo, hi));
        }
    }
    if some_file_selected(items, lo, hi + 1, sel) {
        let j = choose|j: int|
            lo <= j < hi + 1 && #[trigger] items[j].node_type == NodeType::File && sel.contains(
                items[j].path,
            );
        if j < hi {
            assert(some_file_selected(items, lo, hi, sel));
        }
    }
    let fa = file_paths_in(items, lo, hi);
    let fb = file_paths_in(items, lo, hi + 1);
    assert forall|p: PathModel| fb.contains(p) <==> (fa.contains(p) || (items[hi].node_type
        == NodeType::File && items[hi].path == p)) by {
        if fb.contains(p) {
            let j = choose|j: int|
                lo <= j < hi + 1 && #[trigger] items[j].node_type == NodeType::File && items[j].path
                    == p;
            if j < hi {
                assert(fa.contains(p));
            }
        }
        if fa.contains(p) {
            let j = choose|j: int|
                lo <= j < hi && #[trigger] items[j].node_type == NodeType::File && items[j].path == p;
            assert(lo <= j < hi + 1);
        }
        if items[hi].node_type == NodeType::File && items[hi].path == p {
            assert(lo <= hi < hi + 1);
        }
    }
    if items[hi].node_type == NodeType::File {
        assert(fb =~= fa.insert(items[hi].path));
    } else {
        assert(fb =~= fa);
    }
}

/// How much of row `idx` is selected.
pub fn check_state(items: &Vec<Item>, idx: usize, sel: &Selection) -> (res: Check)
    requires
        idx < items@.len(),
    ensures
        res == check_spec(item_models(items@), idx as int, sel@),
    decreases items@.len() - idx,
{
    let ghost m = item_models(items@);
    let n = items.len();
    let kids = descendants(items, idx);
    proof {
        lemma_desc_end_from(m, m[idx as int].depth, idx + 1);
    }
    let ghost end = desc_end(m, idx as int);
    if kids.len() == 0 {
        return if sel.contains(&items[idx].path) {
            Check::Full
        } else {
            Check::Empty
        };
    }
    let mut has_file = false;
    let mut any_sel = false;
    let mut all_sel = true;
    let mut k: usize = 0;
    while k < kids.len()
        invariant
            m == item_models(items@),
            end == desc_end(m, idx as int),
            idx + 1 <= end <= m.len(),
            kids@ == Seq::new((end - idx - 1) as nat, |q: int| (idx + 1 + q) as usize),
            m.len() == items@.len(),
            items@.len() <= usize::MAX,
            k <= kids@.len(),
            has_file == has_file_in(m, idx + 1, idx + 1 + k),
            any_sel == some_file_selected(m, idx + 1, idx + 1 + k, sel@),
            all_sel == all_files_selected(m, idx + 1, idx + 1 + k, sel@),
        decreases kids@.len() - k,
    {
        let i = kids[k];
        proof {
            assert(idx + 1 + k < end);
            assert(kids@[k as int] == (idx + 1 + k) as usize);
            assert(i == idx + 1 + k);
            assert(m[i as int] == items@[i as int]@);
            lemma_extend_ranges(m, idx + 1, i as int, sel@);
        }
        if matches!(items[i].node_type, NodeType::File) {
            has_file = true;
            if sel.contains(&items[i].path) {
                any_sel = true;
            } else {
                all_sel = false;
            }
        }
        k = k + 1;
    }
    if !has_file {
        let mut all_full = true;
        let mut all_empty = true;
        let mut k: usize = 0;
        while k < kids.len()
            invariant
                m == item_models(items@),
                end == desc_end(m, idx as int),
                idx + 1 <= end <= m.len(),
                kids@ == Seq::new((end - idx - 1) as nat, |q: int| (idx + 1 + q) as usize),
                m.len() == items@.len(),
                items@.len() <= usize::MAX,
                k <= kids@.len(),
                folders_all(m, idx as int, idx + 1, end, sel@, Check::Full) == (all_full
                    && folders_all(m, idx as int, idx + 1 + k, end, sel@, Check::Full)),
                folders_all(m, idx as int, idx + 1, end, sel@, Check::Empty) == (all_empty
                    && folders_all(m, idx as int, idx + 1 + k, end, sel@, Check::Empty)),
            decreases kids@.len() - k,
        {
            let i = kids[k];
            proof {
                assert(kids@[k as int] == (idx + 1 + k) as usize);
                assert(m[i as int] == items@[i as int]@);
                lemma_folders_all_step(m, idx as int, i as int, end, sel@, Check::Full);
                lemma_folders_all_step(m, idx as int, i as int, end, sel@, Check::Empty);
            }
            if matches!(items[i].node_type, NodeType::Folder) {
                let st = check_state(items, i, sel);
                all_full = all_full && st == Check::Full;
                all_empty = all_empty && st == Check::Empty;
            }
            k = k + 1;
        }
        return if all_full {
            Check::Full
        } else if all_empty {
            Check::Empty
        } else {
            Check::Partial
        };
    }
    if !any_sel {
        Check::Empty
    } else if all_sel {
        Check::Full
    } else {
        Check::Partial
    }
}

/// The paths of the file rows in `lo .. hi`.
pub open spec fn file_paths_in(items: Seq<ItemModel>, lo: int, hi: int) -> Set<PathModel> {
    Set::new(
        |p: PathModel|
            exists|j: int|
                lo <= j < hi && #[trigger] items[j].node_type == NodeType::File && items[j].path == p,
    )
}

/// The selection after toggling row `idx`: unless the row is full, its
/// path (for a row with nothing below it) or the paths of the files below
/// it are selected; if it is full, they are deselected.
pub open spec fn toggle_spec(items: Seq<ItemModel>, idx: int, sel: Set<PathModel>) -> Set<PathModel> {
    let do_sel = check_spec(items, idx, sel) != Check::Full;
    let end = desc_end(items, idx);
    if end <= idx + 1 {
        if do_sel {
            sel.insert(items[idx].path)
        } else {
            sel.remove(items[idx].path)
        }
    } else if do_sel {
        sel.union(file_paths_in(items, idx + 1, end))
    } else {
        sel.difference(file_paths_in(items, idx + 1, end))
    }
}

/// Toggles row `idx`.
pub fn toggle(items: &Vec<Item>, idx: usize, sel: &mut Selection)
    requires
        idx < items@.len(),
    ensures
        final(sel)@ == toggle_spec(item_models(items@), idx as int, old(sel)@),
{
    let ghost m = item_models(items@);
    let ghost s0 = sel@;
    let n = items.len();
    let do_sel = check_state(items, idx, sel) != Check::Full;
    let kids = descendants(items, idx);
    proof {
        lemma_desc_end_from(m, m[idx as int].depth, idx + 1);
    }
    let ghost end = desc_end(m, idx as int);
    if kids.len() == 0 {
        if do_sel {
            sel.insert(&items[idx].path);
        } else {
            sel.remove(&items[idx].path);
        }
    } else {
        let mut k: usize = 0;
        while k < kids.len()
            invariant
                m == item_models(items@),
                end == desc_end(m, idx as int),
                idx + 1 <= end <= m.len(),
                kids@ == Seq::new((end - idx - 1) as nat, |q: int| (idx + 1 + q) as usize),
                m.len() == items@.len(),
                items@.len() <= usize::MAX,
                k <= kids@.len(),
                sel@ == if do_sel {
                    s0.union(file_paths_in(m, idx + 1, idx + 1 + k))
                } else {
                    s0.difference(file_paths_in(m, idx + 1, idx + 1 + k))
                },
            decreases kids@.len() - k,
        {
            let ci = kids[k];
            proof {
                assert(idx + 1 + k < end);
            assert(kids@[k as int] == (idx + 1 + k) as usize);
            assert(ci == idx + 1 + k);
                assert(m[ci as int] == items@[ci as int]@);
                lemma_extend_ranges(m, idx + 1, ci as int, s0);
            }
            if matches!(items[ci].node_type, NodeType::File) {
                if do_sel {
                    sel.insert(&items[ci].path);
                } else {
                    sel.remove(&items[ci].path);
                }
            }
            proof {
                let fa = file_paths_in(m, idx + 1, idx + 1 + k);
                let fb = file_paths_in(m, idx + 1, idx + 2 + k);
                if do_sel {
                    assert(sel@ =~= s0.union(fb));
                } else {
                    assert(sel@ =~= s0.difference(fb));
                }
            }
            k = k + 1;
        }
    }
}

/// Law: toggling a row with nothing or some file below it makes it full
/// when it was not, and empty when it was.
pub proof fn toggle_flips_row(items: Seq<ItemModel>, idx: int, sel: Set<PathModel>)
    requires
        0 <= idx < items.len(),
        desc_end(items, idx) <= idx + 1 || has_file_in(items, idx + 1, desc_end(items, idx)),
    ensures
        check_spec(items, idx, toggle_spec(items, idx, sel)) == if check_spec(items, idx, sel)
            == Check::Full {
            Check::Empty
        } else {
            Check::Full
        },
{
    lemma_desc_end_from(items, items[idx].depth, idx + 1);
    let end = desc_end(items, idx);
    let after = toggle_spec(items, idx, sel);
    if end > idx + 1 {
        let j = choose|j: int| idx + 1 <= j < end && #[trigger] items[j].node_type == NodeType::File;
        assert(file_paths_in(items, idx + 1, end).contains(items[j].path));
        if check_spec(items, idx, sel) == Check::Full {
            assert(!after.contains(items[j].path));
            assert(!some_file_selected(items, idx + 1, end, after));
        } else {
            assert(after.contains(items[j].path));
            assert forall|k: int| idx + 1 <= k < end && #[trigger] items[k].node_type == NodeType::File
                implies after.contains(items[k].path) by {
                assert(file_paths_in(items, idx + 1, end).contains(items[k].path));
            }
        }
    }
}

/// The first `max` characters of `s` (all of `s` if it is shorter).
pub open spec fn trunc_spec(s: Seq<char>, max: nat) -> Seq<char> {
    if s.len() <= max {
        s
    } else {
        s.take(max as int)
    }
}

/// The first `max` characters of `s`.
pub fn trunc(s: &str, max: usize) -> (res: String)
    ensures
        res@ == trunc_spec(s@, max as nat),
{
    let chars = chars_of(s);
    let n = if chars.len() < max {
        chars.len()
    } else {
        max
    };
    let res = string_of(&chars, 0, n);
    assert(res@ =~= trunc_spec(s@, max as nat));
    res
}

/// The text of the status bar's left part.
pub open spec fn status_left() -> Seq<char> {
    "  [Space] Toggle  [a] All  [j/k] ↑↓  [Enter] Confirm  [q] Quit"@
}

/// The text of the status bar's right part.
pub open spec fn status_right(selected: nat, total: nat) -> Seq<char> {
    "  "@ + decimal(selected) + "/"@ + decimal(total) + " selected  "@
}

/// `a - b`, or 0 when `b` is greater.
pub open spec fn sat_sub(a: int, b: int) -> nat {
    if a > b {
        (a - b) as nat
    } else {
        0
    }
}

/// The status bar, `cols` characters wide at most: the key help on the
/// left, the count of selected files on the right, spaces between.
pub open spec fn status_bar_spec(selected: nat, total: nat, cols: nat) -> Seq<char> {
    let left = status_left();
    let right = status_right(selected, total);
    let pad = sat_sub(cols as int, (left.len() + right.len()) as int);
    trunc_spec(left + Seq::new(pad, |i: int| ' ') + right, cols)
}

/// The status bar for `selected` of `total` files in `cols` columns.
pub fn status_bar(selected: usize, total: usize, cols: usize) -> (res: String)
    ensures
        res@ == status_bar_spec(selected as nat, total as nat, cols as nat),
{
    let left = "  [Space] Toggle  [a] All  [j/k] ↑↓  [Enter] Confirm  [q] Quit";
    let mut right = "  ".to_string();
    push_decimal(&mut right, selected as u64);
    right.append("/");
    push_decimal(&mut right, total as u64);
    right.append(" selected  ");
    let left_len = chars_of(left).len();
    let right_len = chars_of(right.as_str()).len();
    let pad = if cols > left_len && cols - left_len > right_len {
        cols - left_len - right_len
    } else {
        0
    };
    let mut line = left.to_string();
    push_spaces(&mut line, pad);
    line.append(right.as_str());
    trunc(line.as_str(), cols)
}

/// The note ` cursor/total ` shown at the top right when the list does not
/// fit, and the column where it starts.
pub open spec fn scroll_hint_spec(cursor: nat, total: nat, cols: nat) -> (nat, Seq<char>) {
    let hint = " "@ + decimal(cursor + 1) + "/"@ + decimal(total) + " "@;
    (sat_sub(cols as int, hint.len() as int), hint)
}

/// The scroll note for the row `cursor` of `total` rows.
pub fn scroll_hint(cursor: usize, total: usize, cols: usize) -> (res: (usize, String))
    requires
        cursor < usize::MAX,
    ensures
        (res.0 as nat, res.1@) == scroll_hint_spec(cursor as nat, total as nat, cols as nat),
{
    let mut hint = " ".to_string();
    push_decimal(&mut hint, (cursor + 1) as u64);
    hint.append("/");
    push_decimal(&mut hint, total as u64);
    hint.append(" ");
    let n = chars_of(hint.as_str()).len();
    let x = if cols > n {
        cols - n
    } else {
        0
    };
    (x, hint)
}

/// A colour of the selector's screen.
#[derive(Clone, Copy, Debug, PartialEq, Eq, Structural)]
pub enum Shade {
    White,
    DarkGrey,
    Yellow,
    Green,
    Orange,
    Red,
    Magenta,
}

/// The check box drawn for a row of this kind and state.
pub open spec fn check_symbol_spec(kind: ItemKind, state: Check) -> Seq<char> {
    match (kind, state) {
        (ItemKind::Added, Check::Full) => "[+]"@,
        (ItemKind::Removed, Check::Full) => "[-]"@,
        (_, Check::Full) => "[x]"@,
        (_, Check::Empty) => "[ ]"@,
        (_, Check::Partial) => "[~]"@,
    }
}

pub fn check_symbol(kind: ItemKind, state: Check) -> (res: &'static str)
    ensures
        res@ == check_symbol_spec(kind, state),
{
    match (kind, state) {
        (ItemKind::Added, Check::Full) => "[+]",
        (ItemKind::Removed, Check::Full) => "[-]",
        (_, Check::Full) => "[x]",
        (_, Check::Empty) => "[ ]",
        (_, Check::Partial) => "[~]",
    }
}

/// The colour of a check box, and whether it is bold.
pub open spec fn check_style_spec(state: Check) -> (Shade, bool) {
    match state {
        Check::Full => (Shade::White, true),
        Check::Empty => (Shade::DarkGrey, false),
        Check::Partial => (Shade::Yellow, false),
    }
}

pub fn check_style(state: Check) -> (res: (Shade, bool))
    ensures
        res == check_style_spec(state),
{
    match state {
        Check::Full => (Shade::White, true),
        Check::Empty => (Shade::DarkGrey, false),
        Check::Partial => (Shade::Yellow, false),
    }
}

/// The colour of a row's name: by kind (by type for unchanged rows), grey
/// when nothing of the row is selected.
pub open spec fn name_shade_spec(kind: ItemKind, node_type: NodeType, state: Check) -> Shade {
    if state == Check::Empty {
        Shade::DarkGrey
    } else {
        match kind {
            ItemKind::Added => Shade::Green,
            ItemKind::Modified => Shade::Orange,
            ItemKind::Removed => Shade::Red,
            ItemKind::Normal => match node_type {
                NodeType::Folder => Shade::Magenta,
                NodeType::File => Shade::White,
            },
        }
    }
}

pub fn name_shade(kind: ItemKind, node_type: NodeType, state: Check) -> (res: Shade)
    ensures
        res == name_shade_spec(kind, node_type, state),
{
    if matches!(state, Check::Empty) {
        Shade::DarkGrey
    } else {
        match kind {
            ItemKind::Added => Shade::Green,
            ItemKind::Modified => Shade::Orange,
            ItemKind::Removed => Shade::Red,
            ItemKind::Normal => match node_type {
                NodeType::Folder => Shade::Magenta,
                NodeType::File => Shade::White,
            },
        }
    }
}

/// The branch drawn before a row's name.
pub open spec fn connector_spec(is_last: bool) -> Seq<char> {
    if is_last {
        "└── "@
    } else {
        "├── "@
    }
}

pub fn connector(is_last: bool) -> (res: &'static str)
    ensures
        res@ == connector_spec(is_last),
{
    if is_last {
        "└── "
    } else {
        "├── "
    }
}

/// The name of a row as drawn in `cols` columns: cut to what is left after
/// the cursor marker, the check box, a space, the prefix and the branch.
pub open spec fn row_name_spec(item: ItemModel, cols: nat) -> Seq<char> {
    trunc_spec(item.name, sat_sub(cols as int, (2 + 3 + 1 + item.prefix.len() + 4) as int))
}

pub fn row_name(item: &Item, cols: usize) -> (res: String)
    ensures
        res@ == row_name_spec(item@, cols as nat),
{
    let prefix_len = chars_of(item.prefix.as_str()).len();
    proof {
        reveal_strlit("└── ");
        reveal_strlit("├── ");
    }
    let room = if cols > 10 && cols - 10 > prefix_len {
        cols - 10 - prefix_len
    } else {
        0
    };
    trunc(item.name.as_str(), room)
}

/// A key as the selector reads it.
#[derive(Clone, Copy, Debug, PartialEq, Eq, Structural)]
pub enum KeyInput {
    Up,
    Down,
    Enter,
    Esc,
    Char(char),
    Other,
}

/// What the terminal reports to the selector.
#[derive(Clone, Copy, Debug, PartialEq, Eq, Structural)]
pub enum SelectorEvent {
    /// A key press, and whether Control was held.
    Key(KeyInput, bool),
    Resize,
    Other,
}

/// What the selector does after an event.
#[derive(Clone, Copy, Debug, PartialEq, Eq, Structural)]
pub enum Step {
    /// The screen must be drawn again.
    Redraw,
    /// Nothing changed.
    Idle,
    /// The selection is confirmed.
    Confirm,
    /// The selection is abandoned.
    Cancel,
}

/// The paths of all file rows.
pub open spec fn all_file_paths(items: Seq<ItemModel>) -> Set<PathModel> {
    file_paths_in(items, 0, items.len() as int)
}

/// The selector's state after an event, as (cursor, scroll, selection,
/// step), for a list `h` rows high. Up/`k` and Down/`j` move the cursor and
/// keep it in view; Space toggles the row under the cursor; `a` selects all
/// files, or none when all are selected; Enter confirms; `q`, Esc and
/// Control-C/D cancel; a resize redraws.
pub open spec fn step_spec(
    items: Seq<ItemModel>,
    cursor: nat,
    scroll: nat,
    sel: Set<PathModel>,
    ev: SelectorEvent,
    h: nat,
) -> (nat, nat, Set<PathModel>, Step) {
    match ev {
        SelectorEvent::Key(code, ctrl) => {
            if ctrl && (code == KeyInput::Char('c') || code == KeyInput::Char('d')) {
                (cursor, scroll, sel, Step::Cancel)
            } else if code == KeyInput::Up || code == KeyInput::Char('k') {
                if cursor > 0 {
                    let c = (cursor - 1) as nat;
                    (c, if c < scroll { c } else { scroll }, sel, Step::Redraw)
                } else {
                    (cursor, scroll, sel, Step::Idle)
                }
            } else if code == KeyInput::Down || code == KeyInput::Char('j') {
                if cursor + 1 < items.len() {
                    let c = cursor + 1;
                    (c, if c >= scroll + h { (c + 1 - h) as nat } else { scroll }, sel, Step::Redraw)
                } else {
                    (cursor, scroll, sel, Step::Idle)
                }
            } else if code == KeyInput::Char(' ') {
                (cursor, scroll, toggle_spec(items, cursor as int, sel), Step::Redraw)
            } else if code == KeyInput::Char('a') {
                (
                    cursor,
                    scroll,
                    if sel == all_file_paths(items) {
                        Set::empty()
                    } else {
                        all_file_paths(items)
                    },
                    Step::Redraw,
                )
            } else if code == KeyInput::Enter {
                (cursor, scroll, sel, Step::Confirm)
            } else if code == KeyInput::Char('q') || code == KeyInput::Esc {
                (cursor, scroll, sel, Step::Cancel)
            } else {
                (cursor, scroll, sel, Step::Idle)
            }
        },
        SelectorEvent::Resize => (cursor, scroll, sel, Step::Redraw),
        SelectorEvent::Other => (cursor, scroll, sel, Step::Idle),
    }
}

/// A selection holding the paths of all file rows.
pub fn all_files(items: &Vec<Item>) -> (res: Selection)
    ensures
        res@ == all_file_paths(item_models(items@)),
{
    let ghost m = item_models(items@);
    let mut sel = Selection::new();
    let mut k: usize = 0;
    assert(file_paths_in(m, 0, 0) =~= Set::<PathModel>::empty());
    while k < items.len()
        invariant
            m == item_models(items@),
            k <= items@.len(),
            sel@ == file_paths_in(m, 0, k as int),
        decreases items@.len() - k,
    {
        proof {
            assert(m[k as int] == items@[k as int]@);
            lemma_extend_ranges(m, 0, k as int, sel@);
        }
        if matches!(items[k].node_type, NodeType::File) {
            sel.insert(&items[k].path);
        }
        k = k + 1;
    }
    sel
}

/// The interactive selector: its rows, the row under the cursor, the first
/// row shown and the selected paths.
pub struct SelectorState {
    pub items: Vec<Item>,
    pub cursor: usize,
    pub scroll: usize,
    pub selected: Selection,
}

impl SelectorState {
    /// The cursor stands on a row and the first row shown is at most one past it.
    pub open spec fn wf(&self) -> bool {
        &&& self.cursor < self.items@.len()
        &&& self.scroll <= self.cursor + 1
    }

    /// The selector over `items`, with every file selected and the cursor on the first row.
    pub fn new(items: Vec<Item>) -> (res: Self)
        requires
            items@.len() > 0,
        ensures
            res.wf(),
            res.items@ == items@,
            res.cursor == 0,
            res.scroll == 0,
            res.selected@ == all_file_paths(item_models(items@)),
    {
        let selected = all_files(&items);
        SelectorState { items, cursor: 0, scroll: 0, selected }
    }

    /// Applies an event, for a list `list_height` rows high.
    pub fn handle(&mut self, ev: SelectorEvent, list_height: usize) -> (res: Step)
        requires
            old(self).wf(),
        ensures
            final(self).wf(),
            final(self).items@ == old(self).items@,
            (final(self).cursor as nat, final(self).scroll as nat, final(self).selected@, res)
                == step_spec(
                item_models(old(self).items@),
                old(self).cursor as nat,
                old(self).scroll as nat,
                old(self).selected@,
                ev,
                list_height as nat,
            ),
    {
        let len = self.items.len();
        match ev {
            SelectorEvent::Key(code, ctrl) => {
                if ctrl && (code == KeyInput::Char('c') || code == KeyInput::Char('d')) {
                    return Step::Cancel;
                }
                if code == KeyInput::Up || code == KeyInput::Char('k') {
                    if self.cursor > 0 {
                        self.cursor = self.cursor - 1;
                        if self.cursor < self.scroll {
                            self.scroll = self.cursor;
                        }
                        Step::Redraw
                    } else {
                        Step::Idle
                    }
                } else if code == KeyInput::Down || code == KeyInput::Char('j') {
                    if self.cursor + 1 < len {
                        self.cursor = self.cursor + 1;
                        if self.cursor >= self.scroll && self.cursor - self.scroll >= list_height {
                            self.scroll = self.cursor + 1 - list_height;
                        }
                        Step::Redraw
                    } else {
                        Step::Idle
                    }
                } else if code == KeyInput::Char(' ') {
                    toggle(&self.items, self.cursor, &mut self.selected);
                    Step::Redraw
                } else if code == KeyInput::Char('a') {
                    let all = all_files(&self.items);
                    if self.selected.same_as(&all) {
                        self.selected.clear();
                    } else {
                        self.selected = all;
                    }
                    Step::Redraw
                } else if code == KeyInput::Enter {
                    Step::Confirm
                } else if code == KeyInput::Char('q') || code == KeyInput::Esc {
                    Step::Cancel
                } else {
                    Step::Idle
                }
            },
            SelectorEvent::Resize => Step::Redraw,
            SelectorEvent::Other => Step::Idle,
        }
    }
}

/// One drawn row of the selector.
pub struct RowView {
    pub is_cursor: bool,
    pub check_symbol: &'static str,
    pub check_shade: Shade,
    pub check_bold: bool,
    pub prefix: String,
    pub connector: &'static str,
    pub name: String,
    pub name_shade: Shade,
    pub name_bold: bool,
}

/// Mathematical model of a [`RowView`].
pub struct RowModel {
    pub is_cursor: bool,
    pub check_symbol: Seq<char>,
    pub check_shade: Shade,
    pub check_bold: bool,
    pub prefix: Seq<char>,
    pub connector: Seq<char>,
    pub name: Seq<char>,
    pub name_shade: Shade,
    pub name_bold: bool,
}

impl View for RowView {
    type V = RowModel;

    open spec fn view(&self) -> RowModel {
        RowModel {
            is_cursor: self.is_cursor,
            check_symbol: self.check_symbol@,
            check_shade: self.check_shade,
            check_bold: self.check_bold,
            prefix: self.prefix@,
            connector: self.connector@,
            name: self.name@,
            name_shade: self.name_shade,
            name_bold: self.name_bold,
        }
    }
}

/// How row `i` is drawn: cursor marker, check box by kind and state,
/// prefix and branch, then the cut name coloured by kind, bold for folders.
pub open spec fn row_spec(items: Seq<ItemModel>, i: int, cursor: nat, sel: Set<PathModel>, cols: nat) -> RowModel {
    let item = items[i];
    let state = check_spec(items, i, sel);
    RowModel {
        is_cursor: i == cursor,
        check_symbol: check_symbol_spec(item.kind, state),
        check_shade: check_style_spec(state).0,
        check_bold: check_style_spec(state).1,
        prefix: item.prefix,
        connector: connector_spec(item.is_last),
        name: row_name_spec(item, cols),
        name_shade: name_shade_spec(item.kind, item.node_type, state),
        name_bold: item.node_type == NodeType::Folder,
    }
}

/// The number of file rows among the first `k`.
pub open spec fn files_upto(items: Seq<ItemModel>, k: int) -> nat
    decreases k,
{
    if k <= 0 || k > items.len() {
        0
    } else {
        files_upto(items, k - 1) + if items[k - 1].node_type == NodeType::File {
            1nat
        } else {
            0nat
        }
    }
}

/// A whole screen of the selector.
pub struct Frame {
    pub rows: Vec<RowView>,
    pub hint: Option<(usize, String)>,
    pub status: String,
}

/// Mathematical model of a [`Frame`].
pub struct FrameModel {
    pub rows: Seq<RowModel>,
    pub hint: Option<(nat, Seq<char>)>,
    pub status: Seq<char>,
}

impl View for Frame {
    type V = FrameModel;

    open spec fn view(&self) -> FrameModel {
        FrameModel {
            rows: self.rows@.map_values(|r: RowView| r@),
            hint: match self.hint {
                Some((x, h)) => Some((x as nat, h@)),
                None => None,
            },
            status: self.status@,
        }
    }
}

/// The screen for a terminal of `cols` columns and `rows` lines: the rows
/// that fit from the first one shown, one line being kept for the status
/// bar; the scroll note when not all rows fit; the status bar.
pub open spec fn frame_spec(
    items: Seq<ItemModel>,
    cursor: nat,
    scroll: nat,
    sel: Set<PathModel>,
    cols: nat,
    rows: nat,
) -> FrameModel {
    let h = sat_sub(rows as int, 1);
    let shown = if scroll >= items.len() {
        0
    } else if items.len() - scroll < h {
        (items.len() - scroll) as nat
    } else {
        h
    };
    FrameModel {
        rows: Seq::new(shown, |r: int| row_spec(items, scroll + r, cursor, sel, cols)),
        hint: if items.len() > h {
            Some(scroll_hint_spec(cursor, items.len(), cols))
        } else {
            None
        },
        status: status_bar_spec(sel.len(), files_upto(items, items.len() as int), cols),
    }
}

impl SelectorState {
    /// The screen for a terminal of `cols` columns and `rows` lines.
    pub fn frame(&self, cols: usize, rows: usize) -> (res: Frame)
        requires
            self.items@.len() > sat_sub(rows as int, 1) ==> self.cursor < usize::MAX,
        ensures
            res@ == frame_spec(
                item_models(self.items@),
                self.cursor as nat,
                self.scroll as nat,
                self.selected@,
                cols as nat,
                rows as nat,
            ),
    {
        let ghost m = item_models(self.items@);
        let len = self.items.len();
        let h = if rows > 0 {
            rows - 1
        } else {
            0
        };
        let shown = if self.scroll >= len {
            0
        } else if len - self.scroll < h {
            len - self.scroll
        } else {
            h
        };
        let mut out: Vec<RowView> = Vec::new();
        let mut r: usize = 0;
        while r < shown
            invariant
                m == item_models(self.items@),
                len == self.items@.len(),
                r <= shown,
                shown == 0 || self.scroll + shown <= len,
                out@.map_values(|v: RowView| v@) == Seq::new(
                    r as nat,
                    |q: int| row_spec(m, self.scroll + q, self.cursor as nat, self.selected@, cols as nat),
                ),
            decreases shown - r,
        {
            let i = self.scroll + r;
            let item = &self.items[i];
            proof {
                assert(m[i as int] == self.items@[i as int]@);
            }
            let state = check_state(&self.items, i, &self.selected);
            let (check_shade, check_bold) = check_style(state);
            let row = RowView {
                is_cursor: i == self.cursor,
                check_symbol: check_symbol(item.kind, state),
                check_shade,
                check_bold,
                prefix: item.prefix.clone(),
                connector: connector(item.is_last),
                name: row_name(item, cols),
                name_shade: name_shade(item.kind, item.node_type, state),
                name_bold: matches!(item.node_type, NodeType::Folder),
            };
            assert(row@ == row_spec(m, i as int, self.cursor as nat, self.selected@, cols as nat));
            let ghost before = out@;
            let ghost row_model = row@;
            out.push(row);
            assert(out@.map_values(|v: RowView| v@) =~= before.map_values(|v: RowView| v@).push(
                row_model,
            ));
            assert(out@.map_values(|v: RowView| v@) =~= Seq::new(
                (r + 1) as nat,
                |q: int| row_spec(m, self.scroll + q, self.cursor as nat, self.selected@, cols as nat),
            ));
            r = r + 1;
        }
        let hint = if len > h {
            Some(scroll_hint(self.cursor, len, cols))
        } else {
            None
        };
        let mut files: usize = 0;
        let mut k: usize = 0;
        while k < len
            invariant
                m == item_models(self.items@),
                len == self.items@.len(),
                k <= len,
                files == files_upto(m, k as int),
                files <= k,
            decreases len - k,
        {
            proof {
                assert(m[k as int] == self.items@[k as int]@);
            }
            if matches!(self.items[k].node_type, NodeType::File) {
                files = files + 1;
            }
            k = k + 1;
        }
        let status = status_bar(self.selected.len(), files, cols);
        let res = Frame { rows: out, hint, status };
        assert(res@.rows =~= frame_spec(m, self.cursor as nat, self.scroll as nat, self.selected@, cols as nat, rows as nat).rows);
        res
    }
}

} // verus!
