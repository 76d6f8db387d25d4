//! The activity record and its companions: the mathematical view of a
//! record, the sort keys of the listing, and the validation error.

use vstd::prelude::*;

verus! {

/// One stored activity: a task with a caller-assigned id, a display name,
/// a priority and a completion flag.
#[derive(Debug)]
pub struct Todo {
    pub id: usize,
    pub name: String,
    pub priority: u8,
    pub completed: bool,
}

/// The mathematical value of a [`Todo`]: the same four fields over `int`,
/// `Seq<char>` and `bool`.
pub ghost struct TodoView {
    pub id: int,
    pub name: Seq<char>,
    pub priority: int,
    pub completed: bool,
}

impl View for Todo {
    type V = TodoView;

    open spec fn view(&self) -> TodoView {
        TodoView {
            id: self.id as int,
            name: self.name@,
            priority: self.priority as int,
            completed: self.completed,
        }
    }
}

/// The views of the records of a sequence, in order.
pub open spec fn views(s: Seq<Todo>) -> Seq<TodoView> {
    s.map_values(|t: Todo| t@)
}

/// The key by which a listing is ordered.
#[derive(Debug, Clone, Copy, PartialEq, Eq, Structural)]
pub enum SortBy {
    Id,
    Name,
    Priority,
    Completed,
}

/// The one validation error of the store: a positional id outside
/// `1..=len`, where `len` is the number of records currently held.
#[derive(Debug, Clone, Copy, PartialEq, Eq, Structural)]
pub enum TodoError {
    InvalidId { id: usize, len: usize },
}

impl Clone for Todo {
    /// The clone carries the same four field values.
    fn clone(&self) -> (r: Self)
        ensures
            r@ == self@,
    {
        Todo {
            id: self.id,
            name: self.name.clone(),
            priority: self.priority,
            completed: self.completed,
        }
    }
}

impl Todo {
    /// Builds one record from its four fields.
    pub fn new(id: usize, name: String, priority: u8, completed: bool) -> (t: Todo)
        ensures
            t@ == (TodoView { id: id as int, name: name@, priority: priority as int, completed }),
    {
        Todo { id, name, priority, completed }
    }

    /// Appends one record to a loaded list, the in-memory half of the
    /// append-and-save cycle.
    pub fn append_record(records: &mut Vec<Todo>, t: Todo)
        ensures
            final(records)@ == old(records)@.push(t),
    {
        records.push(t);
    }
}

} // verus!
