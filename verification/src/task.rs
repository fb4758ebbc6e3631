//! The task record and its mathematical view.

use crate::text::texts;
use vstd::prelude::*;

verus! {

/// One entry of a task list.
#[derive(Debug, PartialEq, Eq, PartialOrd, Ord)]
pub struct Task {
    pub id: u32,
    pub name: String,
    pub date: String,
    pub time: String,
    pub description: String,
    pub done: bool,
    pub tags: Vec<String>,
}

/// What a task holds, as plain values.
pub ghost struct TaskView {
    pub id: u32,
    pub name: Seq<char>,
    pub date: Seq<char>,
    pub time: Seq<char>,
    pub description: Seq<char>,
    pub done: bool,
    pub tags: Seq<Seq<char>>,
}

impl View for Task {
    type V = TaskView;

    open spec fn view(&self) -> TaskView {
        TaskView {
            id: self.id,
            name: self.name@,
            date: self.date@,
            time: self.time@,
            description: self.description@,
            done: self.done,
            tags: texts(self.tags@),
        }
    }
}

/// What each task of `tasks` holds.
pub open spec fn views(tasks: Seq<Task>) -> Seq<TaskView> {
    Seq::new(tasks.len(), |i: int| tasks[i]@)
}

/// A copy of `tags`.
pub fn clone_tags(tags: &Vec<String>) -> (out: Vec<String>)
    ensures
        texts(out@) == texts(tags@),
{
    let mut out: Vec<String> = Vec::new();
    let mut i: usize = 0;
    while i < tags.len()
        invariant
            i <= tags.len(),
            out.len() == i,
            forall|j: int| 0 <= j < i ==> out[j]@ == tags[j]@,
        decreases tags.len() - i,
    {
        out.push(tags[i].clone());
        i += 1;
    }
    assert(texts(out@) =~= texts(tags@));
    out
}

impl Clone for Task {
    fn clone(&self) -> (copy: Task)
        ensures
            copy@ == self@,
    {
        Task {
            id: self.id,
            name: self.name.clone(),
            date: self.date.clone(),
            time: self.time.clone(),
            description: self.description.clone(),
            done: self.done,
            tags: clone_tags(&self.tags),
        }
    }
}

} // verus!
