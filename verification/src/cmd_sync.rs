use vstd::prelude::*;

use crate::download::{collect_tasks, empty_plan, join_plans, plan_of, TaskPlan};
use crate::node::{
    at_own_name, child_path, entry_models, path_models, path_view, update_models, Diff, DiffModel, Node,
    NodeModel, NodeType, PathModel,
};
use crate::node::copy_node;
use crate::pool::{task_models, FileTask, TaskModel};
use crate::selector::{root_models, ItemKind};

verus! {

/// The folder that holds `path`, if `path` has a last component.
pub open spec fn parent(path: PathModel) -> Option<PathModel> {
    if path.len() == 0 {
        None
    } else {
        Some(path.drop_last())
    }
}

/// What the node of a diff entry asks for, placed in the entry's parent folder.
pub open spec fn entry_plan(path: PathModel, node: NodeModel) -> TaskPlan {
    match parent(path) {
        None => empty_plan(),
        Some(base) => plan_of(node, base),
    }
}

/// Law: a node that lies at a path ending with its local (sanitized) name,
/// as every entry of a diff does, is planned at that very path: a file with
/// an id is fetched to it, and a folder is created there before anything
/// inside it.
pub proof fn planned_at_entry_path(path: PathModel, node: NodeModel)
    requires
        at_own_name(path, node.name),
    ensures
        node.node_type == NodeType::File && node.id is Some ==> entry_plan(path, node).tasks
            == seq![TaskModel { id: node.id->0, name: node.name, path }],
        node.node_type == NodeType::Folder ==> entry_plan(path, node).dirs.len() >= 1 && entry_plan(
            path,
            node,
        ).dirs[0] == path,
{
    assert(child_path(path.drop_last(), node.name) =~= path);
}

/// What the first `k` entries ask for.
pub open spec fn entries_plan(es: Seq<(PathModel, NodeModel)>, k: int) -> TaskPlan
    decreases k,
{
    if k <= 0 || k > es.len() {
        empty_plan()
    } else {
        join_plans(entries_plan(es, k - 1), entry_plan(es[k - 1].0, es[k - 1].1))
    }
}

/// What the new nodes of the first `k` updates ask for.
pub open spec fn updates_plan(es: Seq<(PathModel, NodeModel, NodeModel)>, k: int) -> TaskPlan
    decreases k,
{
    if k <= 0 || k > es.len() {
        empty_plan()
    } else {
        join_plans(updates_plan(es, k - 1), entry_plan(es[k - 1].0, es[k - 1].2))
    }
}

/// Mathematical model of a [`SyncPlan`].
pub struct SyncPlanModel {
    pub added: Seq<TaskModel>,
    pub updated: Seq<TaskModel>,
    pub removed: Seq<TaskModel>,
    pub dirs: Seq<PathModel>,
}

/// The plan for a diff: the files of added, updated (their new version) and
/// removed entries, each entry placed in its parent folder, and the folders
/// that the added entries need.
pub open spec fn sync_plan(d: DiffModel) -> SyncPlanModel {
    SyncPlanModel {
        added: entries_plan(d.added, d.added.len() as int).tasks,
        updated: updates_plan(d.updated, d.updated.len() as int).tasks,
        removed: entries_plan(d.removed, d.removed.len() as int).tasks,
        dirs: entries_plan(d.added, d.added.len() as int).dirs,
    }
}

/// The files to fetch, replace and delete to bring a local copy up to date,
/// and the folders to create first.
pub struct SyncPlan {
    pub added: Vec<FileTask>,
    pub updated: Vec<FileTask>,
    pub removed: Vec<FileTask>,
    pub dirs: Vec<Vec<String>>,
}

impl View for SyncPlan {
    type V = SyncPlanModel;

    open spec fn view(&self) -> SyncPlanModel {
        SyncPlanModel {
            added: task_models(self.added@),
            updated: task_models(self.updated@),
            removed: task_models(self.removed@),
            dirs: path_models(self.dirs@),
        }
    }
}

/// The parent folder of `path`, if it has one.
fn parent_exec(path: &Vec<String>) -> (res: Option<Vec<String>>)
    ensures
        match res {
            None => parent(path_view(path@)) is None,
            Some(b) => parent(path_view(path@)) == Some(path_view(b@)),
        },
{
    if path.len() == 0 {
        return None;
    }
    let mut base: Vec<String> = Vec::new();
    let mut i: usize = 0;
    let last = path.len() - 1;
    while i < last
        invariant
            last == path@.len() - 1,
            0 < path@.len(),
            i < path@.len(),
            base@.len() == i,
            path_view(base@) == path_view(path@).take(i as int),
        decreases path@.len() - i,
    {
        let ghost before = base@;
        let s = path[i].clone();
        base.push(s);
        assert(base@ =~= before.push(s));
        assert forall|k: int| 0 <= k < i + 1 implies #[trigger] path_view(base@)[k] == path_view(
            path@,
        ).take(i + 1)[k] by {
            if k < i {
                assert(base@[k] == before[k]);
                assert(path_view(before)[k] == path_view(path@).take(i as int)[k]);
            }
        }
        assert(path_view(base@) =~= path_view(path@).take(i + 1));
        i = i + 1;
    }
    assert(path_view(path@).take(i as int) =~= path_view(path@).drop_last());
    Some(base)
}

/// The selector rows for the first `k` entries: each entry's node, placed in
/// its parent folder, of kind `kind`; an entry without a parent is left out.
pub open spec fn entry_rows(es: Seq<(PathModel, NodeModel)>, kind: ItemKind, k: int) -> Seq<(NodeModel, PathModel, ItemKind)>
    decreases k,
{
    if k <= 0 || k > es.len() {
        Seq::empty()
    } else {
        let prev = entry_rows(es, kind, k - 1);
        match parent(es[k - 1].0) {
            Some(base) => prev.push((es[k - 1].1, base, kind)),
            None => prev,
        }
    }
}

/// The selector rows for the first `k` updates: each update's new node,
/// placed in its parent folder, marked as modified.
pub open spec fn update_rows(us: Seq<(PathModel, NodeModel, NodeModel)>, k: int) -> Seq<(NodeModel, PathModel, ItemKind)>
    decreases k,
{
    if k <= 0 || k > us.len() {
        Seq::empty()
    } else {
        let prev = update_rows(us, k - 1);
        match parent(us[k - 1].0) {
            Some(base) => prev.push((us[k - 1].2, base, ItemKind::Modified)),
            None => prev,
        }
    }
}

/// The rows that the selector lists for a diff: the added entries, then the
/// modified ones, then the removed ones.
pub open spec fn sync_rows_spec(d: DiffModel) -> Seq<(NodeModel, PathModel, ItemKind)> {
    entry_rows(d.added, ItemKind::Added, d.added.len() as int) + update_rows(d.updated, d.updated.len() as int)
        + entry_rows(d.removed, ItemKind::Removed, d.removed.len() as int)
}

fn push_entry_rows(es: &Vec<(Vec<String>, Node)>, kind: ItemKind, rows: &mut Vec<(Node, Vec<String>, ItemKind)>)
    ensures
        root_models(final(rows)@) == root_models(old(rows)@) + entry_rows(entry_models(es@), kind, es@.len() as int),
{
    let ghost r0 = root_models(rows@);
    let ghost m = entry_models(es@);
    assert(r0 + Seq::<(NodeModel, PathModel, ItemKind)>::empty() =~= r0);
    let mut k: usize = 0;
    while k < es.len()
        invariant
            k <= es@.len(),
            m == entry_models(es@),
            root_models(rows@) == r0 + entry_rows(m, kind, k as int),
        decreases es@.len() - k,
    {
        let ghost before = rows@;
        match parent_exec(&es[k].0) {
            Some(base) => {
                rows.push((copy_node(&es[k].1), base, kind));
                assert(root_models(rows@) =~= root_models(before).push((m[k as int].1, parent(m[k as int].0)->0, kind)));
            },
            None => {},
        }
        assert(r0 + entry_rows(m, kind, k + 1) =~= root_models(rows@));
        k = k + 1;
    }
}

/// The rows that the selector lists for `diff`: the added entries, then the
/// modified ones, then the removed ones, each in its parent folder.
pub fn sync_rows(diff: &Diff) -> (res: Vec<(Node, Vec<String>, ItemKind)>)
    ensures
        root_models(res@) == sync_rows_spec(diff@),
{
    let mut rows: Vec<(Node, Vec<String>, ItemKind)> = Vec::new();
    assert(root_models(rows@) =~= Seq::<(NodeModel, PathModel, ItemKind)>::empty());
    push_entry_rows(&diff.added, ItemKind::Added, &mut rows);
    let ghost r1 = root_models(rows@);
    let ghost um = update_models(diff.updated@);
    let mut k: usize = 0;
    assert(r1 + Seq::<(NodeModel, PathModel, ItemKind)>::empty() =~= r1);
    while k < diff.updated.len()
        invariant
            k <= diff.updated@.len(),
            um == update_models(diff.updated@),
            root_models(rows@) == r1 + update_rows(um, k as int),
        decreases diff.updated@.len() - k,
    {
        let ghost before = rows@;
        match parent_exec(&diff.updated[k].0) {
            Some(base) => {
                rows.push((copy_node(&diff.updated[k].2), base, ItemKind::Modified));
                assert(root_models(rows@) =~= root_models(before).push((um[k as int].2, parent(um[k as int].0)->0, ItemKind::Modified)));
            },
            None => {},
        }
        assert(r1 + update_rows(um, k + 1) =~= root_models(rows@));
        k = k + 1;
    }
    push_entry_rows(&diff.removed, ItemKind::Removed, &mut rows);
    assert(root_models(rows@) =~= sync_rows_spec(diff@));
    rows
}

/// Adds to `tasks` and `dirs` what `node`, at `path`, asks for.
fn plan_entry(path: &Vec<String>, node: &Node, tasks: &mut Vec<FileTask>, dirs: &mut Vec<Vec<String>>)
    ensures
        task_models(final(tasks)@) == task_models(old(tasks)@) + entry_plan(path_view(path@), node@).tasks,
        path_models(final(dirs)@) == path_models(old(dirs)@) + entry_plan(path_view(path@), node@).dirs,
{
    match parent_exec(path) {
        Some(base) => collect_tasks(node, &base, tasks, dirs),
        None => {
            assert(task_models(tasks@) + Seq::<TaskModel>::empty() =~= task_models(tasks@));
            assert(path_models(dirs@) + Seq::<PathModel>::empty() =~= path_models(dirs@));
        },
    }
}

fn plan_entries(es: &Vec<(Vec<String>, Node)>, tasks: &mut Vec<FileTask>, dirs: &mut Vec<Vec<String>>)
    ensures
        task_models(final(tasks)@) == task_models(old(tasks)@) + entries_plan(
            entry_models(es@),
            es@.len() as int,
        ).tasks,
        path_models(final(dirs)@) == path_models(old(dirs)@) + entries_plan(
            entry_models(es@),
            es@.len() as int,
        ).dirs,
{
    let ghost t0 = task_models(tasks@);
    let ghost d0 = path_models(dirs@);
    let ghost m = entry_models(es@);
    let mut k: usize = 0;
    assert(t0 + Seq::<TaskModel>::empty() =~= t0);
    assert(d0 + Seq::<PathModel>::empty() =~= d0);
    while k < es.len()
        invariant
            k <= es@.len(),
            m == entry_models(es@),
            task_models(tasks@) == t0 + entries_plan(m, k as int).tasks,
            path_models(dirs@) == d0 + entries_plan(m, k as int).dirs,
        decreases es@.len() - k,
    {
        plan_entry(&es[k].0, &es[k].1, tasks, dirs);
        proof {
            let e = entry_plan(m[k as int].0, m[k as int].1);
            assert(t0 + entries_plan(m, k as int).tasks + e.tasks =~= t0 + entries_plan(
                m,
                k + 1,
            ).tasks);
            assert(d0 + entries_plan(m, k as int).dirs + e.dirs =~= d0 + entries_plan(
                m,
                k + 1,
            ).dirs);
        }
        k = k + 1;
    }
}

fn plan_updates(es: &Vec<(Vec<String>, Node, Node)>, tasks: &mut Vec<FileTask>)
    ensures
        task_models(final(tasks)@) == task_models(old(tasks)@) + updates_plan(
            update_models(es@),
            es@.len() as int,
        ).tasks,
{
    let ghost t0 = task_models(tasks@);
    let ghost m = update_models(es@);
    let mut scratch: Vec<Vec<String>> = Vec::new();
    let mut k: usize = 0;
    assert(t0 + Seq::<TaskModel>::empty() =~= t0);
    while k < es.len()
        invariant
            k <= es@.len(),
            m == update_models(es@),
            task_models(tasks@) == t0 + updates_plan(m, k as int).tasks,
        decreases es@.len() - k,
    {
        plan_entry(&es[k].0, &es[k].2, tasks, &mut scratch);
        proof {
            let e = entry_plan(m[k as int].0, m[k as int].2);
            assert(t0 + updates_plan(m, k as int).tasks + e.tasks =~= t0 + updates_plan(
                m,
                k + 1,
            ).tasks);
        }
        k = k + 1;
    }
}

impl SyncPlan {
    /// The plan that applies `diff`.
    pub fn from_diff(diff: &Diff) -> (res: Self)
        ensures
            res@ == sync_plan(diff@),
    {
        let mut added: Vec<FileTask> = Vec::new();
        let mut dirs: Vec<Vec<String>> = Vec::new();
        plan_entries(&diff.added, &mut added, &mut dirs);
        let mut removed: Vec<FileTask> = Vec::new();
        let mut scratch: Vec<Vec<String>> = Vec::new();
        plan_entries(&diff.removed, &mut removed, &mut scratch);
        let mut updated: Vec<FileTask> = Vec::new();
        plan_updates(&diff.updated, &mut updated);
        let res = SyncPlan { added, updated, removed, dirs };
        assert(task_models(Seq::<FileTask>::empty()) =~= Seq::<TaskModel>::empty());
        assert(path_models(Seq::<Vec<String>>::empty()) =~= Seq::<PathModel>::empty());
        assert(res@.added =~= sync_plan(diff@).added);
        assert(res@.updated =~= sync_plan(diff@).updated);
        assert(res@.removed =~= sync_plan(diff@).removed);
        assert(res@.dirs =~= sync_plan(diff@).dirs);
        res
    }

    /// Whether the plan has nothing to do.
    pub fn is_empty(&self) -> (res: bool)
        ensures
            res == (self@.added.len() == 0 && self@.updated.len() == 0 && self@.removed.len() == 0),
    {
        self.added.len() == 0 && self.updated.len() == 0 && self.removed.len() == 0
    }
}

/// Law: an empty diff plans nothing.
pub proof fn empty_diff_plans_nothing()
    ensures
        sync_plan(crate::node::empty_diff()) == (SyncPlanModel {
            added: Seq::empty(),
            updated: Seq::empty(),
            removed: Seq::empty(),
            dirs: Seq::empty(),
        }),
{
}

} // verus!
