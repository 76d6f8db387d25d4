//! The in-memory operations on a loaded record list: removal and edit by
//! 1-based position, and filtered search.

use vstd::prelude::*;

use crate::text::{contains_chars, lower_of, lowercase, spec_contains, to_char_vec};
use crate::todo::{views, Todo, TodoError, TodoView};

verus! {

/// The view of a record after an edit: each supplied field overwritten,
/// every other field kept.
pub open spec fn edited_view(
    t: TodoView,
    name: Option<String>,
    priority: Option<u8>,
    completed: Option<bool>,
) -> TodoView {
    TodoView {
        id: t.id,
        name: match name {
            Some(n) => n@,
            None => t.name,
        },
        priority: match priority {
            Some(p) => p as int,
            None => t.priority,
        },
        completed: match completed {
            Some(c) => c,
            None => t.completed,
        },
    }
}

/// A record meets a search: it satisfies every supplied criterion, and an
/// unset criterion holds of every record. The name criterion is
/// case-insensitive substring containment: the folded query occurs inside
/// the folded name.
pub open spec fn search_matches(
    t: TodoView,
    id: Option<usize>,
    name: Option<String>,
    priority: Option<u8>,
    completed: Option<bool>,
) -> bool {
    (match id {
        Some(v) => t.id == v as int,
        None => true,
    }) && (match name {
        Some(q) => spec_contains(lower_of(t.name), lower_of(q@)),
        None => true,
    }) && (match priority {
        Some(v) => t.priority == v as int,
        None => true,
    }) && (match completed {
        Some(v) => t.completed == v,
        None => true,
    })
}

impl Todo {
    /// Removes the record at 1-based position `id` and returns it; a
    /// position of 0 or beyond the end fails and leaves the list unchanged.
    pub fn remove_activity(records: &mut Vec<Todo>, id: usize) -> (r: Result<Todo, TodoError>)
        ensures
            r is Err <==> (id == 0 || id > old(records)@.len()),
            r is Err ==> final(records)@ == old(records)@ && r == Err::<Todo, TodoError>(
                TodoError::InvalidId { id, len: old(records)@.len() as usize },
            ),
            r is Ok ==> final(records)@ == old(records)@.remove(id - 1) && (r matches Ok(t)
                && t == old(records)@[id - 1]),
    {
        if id == 0 || id > records.len() {
            return Err(TodoError::InvalidId { id, len: records.len() });
        }
        let removed = records.remove(id - 1);
        Ok(removed)
    }

    /// Overwrites the supplied fields of the record at 1-based position
    /// `id`; a position of 0 or beyond the end fails and leaves the list
    /// unchanged.
    pub fn edit_activity(
        records: &mut Vec<Todo>,
        id: usize,
        name: Option<String>,
        priority: Option<u8>,
        completed: Option<bool>,
    ) -> (r: Result<(), TodoError>)
        ensures
            r is Err <==> (id == 0 || id > old(records)@.len()),
            r is Err ==> final(records)@ == old(records)@ && r == Err::<(), TodoError>(
                TodoError::InvalidId { id, len: old(records)@.len() as usize },
            ),
            r is Ok ==> views(final(records)@) == views(old(records)@).update(
                id - 1,
                edited_view(old(records)@[id - 1]@, name, priority, completed),
            ),
    {
        if id == 0 || id > records.len() {
            return Err(TodoError::InvalidId { id, len: records.len() });
        }
        let i = id - 1;
        let current = records.remove(i);
        let updated = Todo {
            id: current.id,
            name: match name {
                Some(n) => n,
                None => current.name,
            },
            priority: match priority {
                Some(p) => p,
                None => current.priority,
            },
            completed: match completed {
                Some(c) => c,
                None => current.completed,
            },
        };
        records.insert(i, updated);
        proof {
            assert(views(records@) =~= views(old(records)@).update(
                id - 1,
                edited_view(old(records)@[id - 1]@, name, priority, completed),
            ));
        }
        Ok(())
    }

    /// Keeps the records that meet every supplied criterion, in their
    /// stored order.
    pub fn search_activities(
        records: &Vec<Todo>,
        id: Option<usize>,
        name: Option<String>,
        priority: Option<u8>,
        completed: Option<bool>,
    ) -> (r: Vec<Todo>)
        ensures
            views(r@) == views(records@).filter(
                |t: TodoView| search_matches(t, id, name, priority, completed),
            ),
    {
        let ghost pred = |t: TodoView| search_matches(t, id, name, priority, completed);
        let n = records.len();
        let mut r: Vec<Todo> = Vec::new();
        proof {
            reveal(Seq::filter);
            assert(views(records@.take(0)) =~= Seq::<TodoView>::empty());
            assert(views(r@) =~= Seq::<TodoView>::empty().filter(pred));
        }
        let mut i: usize = 0;
        while i < n
            invariant
                n == records@.len(),
                i <= n,
                views(r@) == views(records@.take(i as int)).filter(pred),
                pred == (|t: TodoView| search_matches(t, id, name, priority, completed)),
            decreases n - i,
        {
            let rec = &records[i];
            let id_ok = match id {
                Some(v) => rec.id == v,
                None => true,
            };
            let name_ok = match &name {
                Some(q) => {
                    let folded_name = lowercase(rec.name.as_str());
                    let folded_query = lowercase(q.as_str());
                    contains_chars(&to_char_vec(folded_name.as_str()), &to_char_vec(folded_query.as_str()))
                },
                None => true,
            };
            let priority_ok = match priority {
                Some(v) => rec.priority == v,
                None => true,
            };
            let completed_ok = match completed {
                Some(v) => rec.completed == v,
                None => true,
            };
            let keep = id_ok && name_ok && priority_ok && completed_ok;
            proof {
                assert(keep == pred(rec@));
            }
            if keep {
                r.push(rec.clone());
            }
            proof {
                reveal(Seq::filter);
                let prev = views(records@.take(i as int));
                let next = views(records@.take((i + 1) as int));
                assert(next =~= prev.push(records@[i as int]@));
                assert(next.drop_last() =~= prev);
                assert(next.filter(pred) == if pred(records@[i as int]@) {
                    prev.filter(pred).push(records@[i as int]@)
                } else {
                    prev.filter(pred)
                });
                if pred(records@[i as int]@) {
                    assert(views(r@) =~= prev.filter(pred).push(records@[i as int]@));
                }
            }
            i += 1;
        }
        proof {
            assert(records@.take(n as int) =~= records@);
        }
        r
    }
}

/// A search with no criteria keeps every record: with each criterion
/// unset, every record matches, so the filtered list is the whole list.
pub proof fn lemma_search_no_criteria(records: Seq<Todo>)
    ensures
        views(records).filter(|t: TodoView| search_matches(t, None, None, None, None)) == views(
            records,
        ),
{
    let s = views(records);
    let pred = |t: TodoView| search_matches(t, None, None, None, None);
    lemma_filter_all_true(s, pred);
}

/// A filter whose predicate holds of every element keeps the sequence
/// unchanged.
proof fn lemma_filter_all_true(s: Seq<TodoView>, pred: spec_fn(TodoView) -> bool)
    requires
        forall|i: int| 0 <= i < s.len() ==> pred(#[trigger] s[i]),
    ensures
        s.filter(pred) == s,
    decreases s.len(),
{
    reveal(Seq::filter);
    if s.len() == 0 {
        assert(s =~= Seq::<TodoView>::empty());
        assert(s.filter(pred) =~= s);
    } else {
        lemma_filter_all_true(s.drop_last(), pred);
        assert(s.filter(pred) =~= s);
    }
}

} // verus!
