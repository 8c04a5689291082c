//! The task record and its mathematical model.

use vstd::prelude::*;

verus! {

/// One to-do record.
#[derive(Debug, PartialEq)]
pub struct Task {
    pub id: u32,
    pub description: String,
    pub done: bool,
    pub tags: Vec<String>,
}

/// Mathematical model of a task: strings are seen as character sequences.
pub struct TaskView {
    pub id: u32,
    pub description: Seq<char>,
    pub done: bool,
    pub tags: Seq<Seq<char>>,
}

/// The character sequences of a list of strings.
pub open spec fn strs_view(v: Seq<String>) -> Seq<Seq<char>> {
    v.map_values(|s: String| s@)
}

impl View for Task {
    type V = TaskView;

    open spec fn view(&self) -> TaskView {
        TaskView {
            id: self.id,
            description: self.description@,
            done: self.done,
            tags: strs_view(self.tags@),
        }
    }
}

/// The models of a sequence of tasks.
pub open spec fn tasks_view(v: Seq<Task>) -> Seq<TaskView> {
    v.map_values(|t: Task| t@)
}

impl Task {
    /// A new task, not yet done.
    pub fn new(id: u32, description: String, tags: Vec<String>) -> (r: Task)
        ensures
            r.id == id,
            r.description == description,
            r.done == false,
            r.tags == tags,
    {
        Task { id, description, done: false, tags }
    }

    /// A task with the same fields as this one.
    pub fn duplicate(&self) -> (r: Task)
        ensures
            r@ == self@,
    {
        Task {
            id: self.id,
            description: self.description.clone(),
            done: self.done,
            tags: copy_strings(&self.tags),
        }
    }
}

/// A list holding the same strings.
pub fn copy_strings(v: &Vec<String>) -> (r: Vec<String>)
    ensures
        strs_view(r@) == strs_view(v@),
{
    let mut r: Vec<String> = Vec::new();
    let mut i: usize = 0;
    while i < v.len()
        invariant
            i <= v@.len(),
            strs_view(r@) == strs_view(v@.take(i as int)),
        decreases v@.len() - i,
    {
        let ghost r0 = r@;
        r.push(v[i].clone());
        assert(v@.take(i as int + 1) == v@.take(i as int).push(v@[i as int]));
        assert(strs_view(r@) =~= strs_view(r0).push(v@[i as int]@));
        assert(strs_view(v@.take(i as int + 1)) =~= strs_view(v@.take(i as int)).push(
            v@[i as int]@,
        ));
        i += 1;
    }
    assert(v@.take(i as int) == v@);
    r
}

} // verus!
