use vstd::prelude::*;

use crate::node::{path_view, PathModel};

verus! {

/// A file to fetch: its drive id, its name and the local path to write.
#[derive(Debug)]
pub struct FileTask {
    pub id: String,
    pub name: String,
    pub path: Vec<String>,
}

/// Mathematical model of a [`FileTask`].
pub struct TaskModel {
    pub id: Seq<char>,
    pub name: Seq<char>,
    pub path: PathModel,
}

impl View for FileTask {
    type V = TaskModel;

    open spec fn view(&self) -> TaskModel {
        TaskModel { id: self.id@, name: self.name@, path: path_view(self.path@) }
    }
}

/// The models of a sequence of tasks.
pub open spec fn task_models(s: Seq<FileTask>) -> Seq<TaskModel> {
    s.map_values(|t: FileTask| t@)
}

} // verus!
