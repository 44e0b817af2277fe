use vstd::prelude::*;

use crate::node::{child_path, join_child, lemma_models, path_view, path_models, Node, NodeModel, NodeType, PathModel};
use crate::pool::{task_models, FileTask, TaskModel};
use crate::text::{chars_of, find_from, find_seq, lemma_find_from, string_of};

verus! {

/// The files to fetch and the folders to create for a tree.
#[verifier::ext_equal]
pub struct TaskPlan {
    pub tasks: Seq<TaskModel>,
    pub dirs: Seq<PathModel>,
}

pub open spec fn empty_plan() -> TaskPlan {
    TaskPlan { tasks: Seq::empty(), dirs: Seq::empty() }
}

pub open spec fn join_plans(a: TaskPlan, b: TaskPlan) -> TaskPlan {
    TaskPlan { tasks: a.tasks + b.tasks, dirs: a.dirs + b.dirs }
}

/// What the tree `t`, placed in the folder `base`, asks for: a folder is
/// created as `base/local` and its children are placed in it, in order; a
/// file with an id is fetched to `base/local`; a file without an id is
/// skipped. `local` is the sanitized form of the node's name.
pub open spec fn plan_of(t: NodeModel, base: PathModel) -> TaskPlan
    decreases t, 1int, 0int,
{
    match t.node_type {
        NodeType::Folder => {
            let dir = child_path(base, t.name);
            join_plans(
                TaskPlan { tasks: Seq::empty(), dirs: seq![dir] },
                plan_children(t, dir, t.children.len() as int),
            )
        },
        NodeType::File => match t.id {
            Some(id) => TaskPlan {
                tasks: seq![TaskModel { id, name: t.name, path: child_path(base, t.name) }],
                dirs: Seq::empty(),
            },
            None => empty_plan(),
        },
    }
}

/// What the first `k` children of `t`, placed in `dir`, ask for.
pub open spec fn plan_children(t: NodeModel, dir: PathModel, k: int) -> TaskPlan
    decreases t, 0int, k,
{
    if k <= 0 || k > t.children.len() {
        empty_plan()
    } else {
        proof {
            assert(decreases_to!(t => t.children));
            assert(decreases_to!(t.children => t.children[k - 1]));
        }
        join_plans(plan_children(t, dir, k - 1), plan_of(t.children[k - 1], dir))
    }
}

proof fn lemma_join_assoc(a: TaskPlan, b: TaskPlan, c: TaskPlan)
    ensures
        join_plans(join_plans(a, b), c) == join_plans(a, join_plans(b, c)),
{
    assert(join_plans(join_plans(a, b), c) =~= join_plans(a, join_plans(b, c)));
}

/// Collects, below `base`, the files of `node` to fetch into `tasks` and the
/// folders to create into `dirs`.
pub fn collect_tasks(
    node: &Node,
    base: &Vec<String>,
    tasks: &mut Vec<FileTask>,
    dirs: &mut Vec<Vec<String>>,
)
    ensures
        task_models(final(tasks)@) == task_models(old(tasks)@) + plan_of(node@, path_view(base@)).tasks,
        path_models(final(dirs)@) == path_models(old(dirs)@) + plan_of(node@, path_view(base@)).dirs,
    decreases node,
{
    let ghost t0 = task_models(tasks@);
    let ghost d0 = path_models(dirs@);
    match node.node_type {
        NodeType::Folder => {
            let dir = join_child(base, &node.name);
            let ghost dir_model = path_view(dir@);
            dirs.push(crate::node::copy_path(&dir));
            assert(path_models(dirs@) =~= d0.push(dir_model));
            proof {
                lemma_models(node.children@);
                assert(join_plans(TaskPlan { tasks: Seq::empty(), dirs: seq![dir_model] }, empty_plan())
                    =~= TaskPlan { tasks: Seq::empty(), dirs: seq![dir_model] });
            }
            let mut i: usize = 0;
            while i < node.children.len()
                invariant
                    i <= node.children@.len(),
                    node@.children.len() == node.children@.len(),
                    forall|j: int| 0 <= j < node.children@.len() ==> #[trigger] node@.children[j] == node.children@[j]@,
                    dir_model == path_view(dir@),
                    dir_model == child_path(path_view(base@), node@.name),
                    task_models(tasks@) == t0 + join_plans(
                        TaskPlan { tasks: Seq::empty(), dirs: seq![dir_model] },
                        plan_children(node@, dir_model, i as int),
                    ).tasks,
                    path_models(dirs@) == d0 + join_plans(
                        TaskPlan { tasks: Seq::empty(), dirs: seq![dir_model] },
                        plan_children(node@, dir_model, i as int),
                    ).dirs,
                decreases node.children@.len() - i,
            {
                proof {
                    assert(decreases_to!(node => node.children));
                    assert(decreases_to!(node.children => node.children@));
                    assert(decreases_to!(node.children@ => node.children@[i as int]));
                }
                collect_tasks(&node.children[i], &dir, tasks, dirs);
                proof {
                    let head = TaskPlan { tasks: Seq::empty(), dirs: seq![dir_model] };
                    let pc = plan_children(node@, dir_model, i as int);
                    let pn = plan_of(node@.children[i as int], dir_model);
                    lemma_join_assoc(head, pc, pn);
                    assert(t0 + join_plans(head, pc).tasks + pn.tasks =~= t0 + join_plans(
                        head,
                        join_plans(pc, pn),
                    ).tasks);
                    assert(d0 + join_plans(head, pc).dirs + pn.dirs =~= d0 + join_plans(
                        head,
                        join_plans(pc, pn),
                    ).dirs);
                }
                i = i + 1;
            }
        },
        NodeType::File => {
            match &node.id {
                Some(id) => {
                    let task = FileTask {
                        id: id.clone(),
                        name: node.name.clone(),
                        path: join_child(base, &node.name),
                    };
                    tasks.push(task);
                    assert(task_models(tasks@) =~= t0 + plan_of(node@, path_view(base@)).tasks);
                },
                None => {
                    assert(t0 + Seq::<TaskModel>::empty() =~= t0);
                },
            }
            assert(d0 + Seq::<PathModel>::empty() =~= d0);
        },
    }
}

/// Whether `char::is_alphanumeric` holds of `c` (Unicode alphabetic or numeric).
pub uninterp spec fn is_alphanumeric(c: char) -> bool;

/// Calls `char::is_alphanumeric`. Its result is named `is_alphanumeric`; as
/// its documentation says (alphabetic or numeric), an ASCII character is
/// alphanumeric exactly when it is a letter or a digit. Which characters
/// beyond ASCII are is left unsaid.
#[verifier::external_body]
fn char_is_alphanumeric(c: char) -> (res: bool)
    ensures
        res == is_alphanumeric(c),
        c <= '\u{7f}' ==> (res <==> ('a' <= c <= 'z' || 'A' <= c <= 'Z' || '0' <= c <= '9')),
{
    c.is_alphanumeric()
}

/// A character that may stand in a confirmation token.
pub open spec fn is_token_char(c: char) -> bool {
    is_alphanumeric(c) || c == '_' || c == '-'
}

/// For each character of `html`, whether it may stand in a token.
pub open spec fn token_flags(html: Seq<char>) -> Seq<bool> {
    html.map_values(|c: char| is_token_char(c))
}

/// The first position at or after `from` whose flag is off.
pub open spec fn token_end_from(flags: Seq<bool>, from: int) -> Option<int>
    decreases flags.len() - from,
{
    if from < 0 || from >= flags.len() {
        None
    } else if !flags[from] {
        Some(from)
    } else {
        token_end_from(flags, from + 1)
    }
}

/// The confirmation token of a download warning page, given which of its
/// characters may stand in a token: what follows `confirm=` up to the first
/// character that may not; `t` when there is no `confirm=` or nothing ends
/// the token.
pub open spec fn token_with(html: Seq<char>, flags: Seq<bool>) -> Seq<char> {
    match find_from(html, "confirm="@, 0) {
        None => "t"@,
        Some(i) => match token_end_from(flags, i + 8) {
            None => "t"@,
            Some(e) => html.subrange(i + 8, e),
        },
    }
}

/// The confirmation token that a download warning page carries; a token
/// character is alphanumeric, `_` or `-`.
pub open spec fn confirm_token(html: Seq<char>) -> Seq<char> {
    token_with(html, token_flags(html))
}

/// The address that downloads the file `id` directly.
pub open spec fn download_url_spec(id: Seq<char>) -> Seq<char> {
    "https://drive.google.com/uc?export=download&id="@ + id
}

/// The address that downloads the file `id` once its warning is confirmed.
pub open spec fn confirm_url_spec(html: Seq<char>, id: Seq<char>) -> Seq<char> {
    download_url_spec(id) + "&confirm="@ + confirm_token(html)
}

fn token_end(flags: &Vec<bool>, from: usize) -> (res: Option<usize>)
    ensures
        match res {
            Some(e) => token_end_from(flags@, from as int) == Some(e as int),
            None => token_end_from(flags@, from as int) is None,
        },
{
    let mut i = from;
    while i < flags.len()
        invariant
            from <= i,
            token_end_from(flags@, from as int) == token_end_from(flags@, i as int),
        decreases flags@.len() - i,
    {
        if !flags[i] {
            return Some(i);
        }
        i = i + 1;
    }
    None
}

proof fn lemma_token_end_from(flags: Seq<bool>, from: int)
    requires
        0 <= from,
    ensures
        token_end_from(flags, from) matches Some(e) ==> from <= e < flags.len(),
    decreases flags.len() - from,
{
    if 0 <= from < flags.len() && flags[from] {
        lemma_token_end_from(flags, from + 1);
    }
}

/// The address that downloads the file `id`.
pub fn download_url(id: &str) -> (res: String)
    ensures
        res@ == download_url_spec(id@),
{
    let mut url = "https://drive.google.com/uc?export=download&id=".to_string();
    url.append(id);
    url
}

/// Whether a response of this content type is a page rather than the file.
pub fn is_html_content(content_type: &str) -> (res: bool)
    ensures
        res == (find_from(content_type@, "text/html"@, 0) is Some),
{
    let ct = chars_of(content_type);
    let pat = chars_of("text/html");
    proof {
        reveal_strlit("text/html");
    }
    find_seq(&ct, &pat, 0).is_some()
}

/// The address that downloads the file `id` past the warning page `html`,
/// given for each character of the page whether it may stand in a token.
pub fn confirm_url_with_flags(html: &str, id: &str, flags: &Vec<bool>) -> (res: String)
    requires
        flags@.len() == html@.len(),
    ensures
        res@ == download_url_spec(id@) + "&confirm="@ + token_with(html@, flags@),
{
    let h = chars_of(html);
    let len = h.len();
    let pat = chars_of("confirm=");
    proof {
        reveal_strlit("confirm=");
    }
    let token = match find_seq(&h, &pat, 0) {
        Some(i) => {
            proof {
                lemma_find_from(h@, pat@, 0);
            }
            match token_end(flags, i + 8) {
                Some(e) => {
                    proof {
                        lemma_token_end_from(flags@, i + 8);
                    }
                    string_of(&h, i + 8, e)
                },
                None => "t".to_string(),
            }
        },
        None => "t".to_string(),
    };
    let mut url = download_url(id);
    url.append("&confirm=");
    url.append(token.as_str());
    url
}

/// The address that downloads the file `id` past the warning page `html`.
pub fn extract_confirm_url(html: &str, id: &str) -> (res: String)
    ensures
        res@ == confirm_url_spec(html@, id@),
{
    let mut flags: Vec<bool> = Vec::new();
    for c in it: html.chars()
        invariant
            it.seq() == html@,
            flags@ == token_flags(html@.take(it.index() as int)),
    {
        let ghost before = flags@;
        flags.push(char_is_alphanumeric(c) || c == '_' || c == '-');
        assert(html@.take(it.index() + 1) =~= html@.take(it.index() as int).push(c));
        assert(flags@ =~= token_flags(html@.take(it.index() + 1)));
    }
    assert(html@.take(html@.len() as int) =~= html@);
    confirm_url_with_flags(html, id, &flags)
}

} // verus!
