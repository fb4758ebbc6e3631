//! Changes to a loaded collection: editing the fields of a task, marking a
//! task done, and deleting tasks, each by id.

use crate::create::{text_view, texts_view};
use crate::task::{Task, TaskView};
use crate::text::{trim, trimmed};
use vstd::prelude::*;

verus! {

/// An edit named an id that no task of the collection has.
#[derive(Clone, Copy, Debug, PartialEq, Eq, Structural)]
pub struct NotFoundError {
    pub id: u32,
}

/// Whether a task of `tasks` has the id `id`.
pub open spec fn has_id(tasks: Seq<Task>, id: u32) -> bool {
    exists|i: int| 0 <= i < tasks.len() && (#[trigger] tasks[i]).id == id
}

/// Whether `at` is the place of the first task of `tasks` with the id `id`.
pub open spec fn is_first_with_id(tasks: Seq<Task>, id: u32, at: int) -> bool {
    &&& 0 <= at < tasks.len()
    &&& tasks[at].id == id
    &&& forall|i: int| 0 <= i < at ==> (#[trigger] tasks[i]).id != id
}

/// The fields that an edit supplies. A field that is `None` is left as it
/// is.
pub ghost struct Changes {
    pub name: Option<Seq<char>>,
    pub description: Option<Seq<char>>,
    pub date: Option<Seq<char>>,
    pub time: Option<Seq<char>>,
    pub done: Option<bool>,
    pub tags: Option<Seq<Seq<char>>>,
}

/// `old` where `new` is absent, else `new` without the whitespace around it.
pub open spec fn replaced(old: Seq<char>, new: Option<Seq<char>>) -> Seq<char> {
    match new {
        Some(text) => trimmed(text),
        None => old,
    }
}

/// The task `t` after an edit: each supplied text without the whitespace
/// around it, supplied tags and done as they are given, the id and every
/// field that is not supplied untouched.
pub open spec fn edited(t: TaskView, changes: Changes) -> TaskView {
    TaskView {
        id: t.id,
        name: replaced(t.name, changes.name),
        date: replaced(t.date, changes.date),
        time: replaced(t.time, changes.time),
        description: replaced(t.description, changes.description),
        done: match changes.done {
            Some(flag) => flag,
            None => t.done,
        },
        tags: match changes.tags {
            Some(list) => list,
            None => t.tags,
        },
    }
}

/// The place of the first task with the id `id`, if there is one.
pub fn find_by_id(tasks: &Vec<Task>, id: u32) -> (found: Option<usize>)
    ensures
        match found {
            Some(at) => is_first_with_id(tasks@, id, at as int),
            None => !has_id(tasks@, id),
        },
{
    let mut i: usize = 0;
    while i < tasks.len()
        invariant
            i <= tasks.len(),
            forall|j: int| 0 <= j < i ==> (#[trigger] tasks[j]).id != id,
        decreases tasks.len() - i,
    {
        if tasks[i].id == id {
            return Some(i);
        }
        i += 1;
    }
    None
}

/// Edits the first task with the id `id`: the fields that are supplied are
/// replaced, texts without the whitespace around them, and the others are
/// left as they are. Where no task has that id, nothing changes and the
/// edit is refused.
pub fn edit_task(
    tasks: &mut Vec<Task>,
    id: u32,
    name: Option<String>,
    description: Option<String>,
    date: Option<String>,
    time: Option<String>,
    done: Option<bool>,
    tags: Option<Vec<String>>,
) -> (outcome: Result<(), NotFoundError>)
    ensures
        outcome is Ok <==> has_id(old(tasks)@, id),
        outcome matches Err(e) ==> e.id == id && *final(tasks) == *old(tasks),
        outcome is Ok ==> final(tasks).len() == old(tasks).len() && forall|at: int|
            0 <= at < old(tasks).len() ==> if is_first_with_id(old(tasks)@, id, at) {
                (#[trigger] final(tasks)[at])@ == edited(
                    old(tasks)[at]@,
                    Changes {
                        name: text_view(name),
                        description: text_view(description),
                        date: text_view(date),
                        time: text_view(time),
                        done,
                        tags: texts_view(tags),
                    },
                )
            } else {
                final(tasks)[at] == old(tasks)[at]
            },
{
    let at = match find_by_id(tasks, id) {
        Some(at) => at,
        None => {
            return Err(NotFoundError { id });
        },
    };
    let task = &mut tasks[at];
    if let Some(text) = name {
        task.name = trim(text.as_str());
    }
    if let Some(text) = date {
        task.date = trim(text.as_str());
    }
    if let Some(text) = description {
        task.description = trim(text.as_str());
    }
    if let Some(text) = time {
        task.time = trim(text.as_str());
    }
    if let Some(list) = tags {
        task.tags = list;
    }
    if let Some(flag) = done {
        task.done = flag;
    }
    Ok(())
}

/// Marks the first task with the id `id` as done. Where no task has that
/// id, nothing changes.
pub fn complete_task(tasks: &mut Vec<Task>, id: u32)
    ensures
        final(tasks).len() == old(tasks).len(),
        forall|at: int|
            0 <= at < old(tasks).len() ==> #[trigger] final(tasks)[at] == if is_first_with_id(
                old(tasks)@,
                id,
                at,
            ) {
                Task { done: true, ..old(tasks)[at] }
            } else {
                old(tasks)[at]
            },
        !has_id(old(tasks)@, id) ==> *final(tasks) == *old(tasks),
{
    match find_by_id(tasks, id) {
        Some(at) => {
            tasks[at].done = true;
        },
        None => {},
    }
}

/// An edit that supplies only `done` changes nothing else of the task.
pub proof fn lemma_edit_done_only(t: TaskView, flag: bool)
    ensures
        edited(
            t,
            Changes {
                name: None,
                description: None,
                date: None,
                time: None,
                done: Some(flag),
                tags: None,
            },
        ) == (TaskView { done: flag, ..t }),
{
}

/// The tasks of `tasks` whose id is not `id`, in their order.
pub open spec fn without_id(tasks: Seq<Task>, id: u32) -> Seq<Task> {
    tasks.filter(|t: Task| t.id != id)
}

/// Where no task has the id, none is removed.
pub proof fn lemma_without_absent_id(tasks: Seq<Task>, id: u32)
    requires
        !has_id(tasks, id),
    ensures
        without_id(tasks, id) == tasks,
    decreases tasks.len(),
{
    reveal(Seq::filter);
    if tasks.len() > 0 {
        let init = tasks.drop_last();
        assert forall|i: int| 0 <= i < init.len() implies (#[trigger] init[i]).id != id by {
            assert(init[i] == tasks[i]);
        }
        lemma_without_absent_id(init, id);
        assert(tasks.last() == tasks[tasks.len() - 1]);
        assert(init.push(tasks.last()) =~= tasks);
    }
}

/// Removes every task with the id `id` and keeps the others in their order.
/// Where no task has that id, nothing changes.
pub fn delete_task(tasks: &mut Vec<Task>, id: u32)
    ensures
        final(tasks)@ == without_id(old(tasks)@, id),
        !has_id(old(tasks)@, id) ==> final(tasks)@ == old(tasks)@,
{
    let mut all: Vec<Task> = Vec::new();
    core::mem::swap(tasks, &mut all);
    let ghost before = all@;
    assert(before.take(0) =~= Seq::<Task>::empty());
    proof {
        reveal(Seq::filter);
    }
    for task in it: all.into_iter()
        invariant
            it.seq() == before,
            tasks@ == without_id(before.take(it.index() as int), id),
    {
        let ghost seen = before.take(it.index() as int);
        assert(before.take(it.index() + 1) =~= seen.push(task));
        proof {
            seen.lemma_filter_push(task, |t: Task| t.id != id);
        }
        if task.id != id {
            tasks.push(task);
        }
    }
    assert(before.take(before.len() as int) =~= before);
    proof {
        if !has_id(before, id) {
            lemma_without_absent_id(before, id);
        }
    }
}

} // verus!
