//! The task list itself: the tasks in the order in which they were added, and
//! the counter that numbers them.

use crate::laws::{lemma_add_keeps_order, lemma_removal_keeps_order, lemma_toggle_keeps_order};
use crate::model::{
    is_done, is_open, lemma_next_free_id, lemma_position_unique, next_free_id, other_than, Store,
    Task,
};
use crate::order::lemma_filter_push;
use crate::text::is_blank;
use vstd::prelude::*;

verus! {

/// A task of the list.
#[derive(Debug, PartialEq, Eq)]
pub struct Todo {
    pub id: usize,
    pub text: String,
    pub completed: bool,
}

impl View for Todo {
    type V = Task;

    open spec fn view(&self) -> Task {
        Task { id: self.id as nat, text: self.text@, completed: self.completed }
    }
}

impl Clone for Todo {
    fn clone(&self) -> (copy: Todo)
        ensures
            copy@ == self@,
    {
        Todo { id: self.id, text: self.text.clone(), completed: self.completed }
    }
}

impl Todo {
    /// A task that is not completed yet.
    pub fn new(id: usize, text: String) -> (todo: Todo)
        ensures
            todo@ == Task::fresh(id as nat, text@),
    {
        Todo { id, text, completed: false }
    }
}

/// The tasks that `todos` stand for, one for one.
pub open spec fn tasks_of(todos: Seq<Todo>) -> Seq<Task> {
    todos.map_values(|t: Todo| t@)
}

/// What was read back from storage, as the model sees it.
pub open spec fn loaded_tasks(loaded: Option<Vec<Todo>>) -> Option<Seq<Task>> {
    match loaded {
        Some(list) => Some(tasks_of(list@)),
        None => None,
    }
}

/// How many tasks there are, how many of them are completed and how many
/// are still open.
#[derive(Clone, Copy, Debug, PartialEq, Eq)]
pub struct Stats {
    pub total: usize,
    pub completed: usize,
    pub pending: usize,
}

/// The list of tasks and the counter that numbers them.
pub struct TodoApp {
    todos: Vec<Todo>,
    next_id: usize,
}

impl View for TodoApp {
    type V = Store;

    closed spec fn view(&self) -> Store {
        Store { items: tasks_of(self.todos@), next_id: self.next_id as nat }
    }
}

impl Default for TodoApp {
    /// The empty list.
    fn default() -> (app: TodoApp)
        ensures
            app@ == Store::empty(),
    {
        TodoApp::new()
    }
}

/// The counter for a list that was read back: just above its identifiers.
/// There is none where an identifier leaves no room above it.
fn counter_for(list: &Vec<Todo>) -> (next: Option<usize>)
    ensures
        next is Some <==> Store::loadable(tasks_of(list@)),
        next is Some ==> next->0 == next_free_id(tasks_of(list@)),
{
    let ghost tasks = tasks_of(list@);
    let mut next: usize = 0;
    let mut i: usize = 0;
    while i < list.len()
        invariant
            i <= list.len(),
            tasks == tasks_of(list@),
            Store::loadable(tasks.take(i as int)),
            next == next_free_id(tasks.take(i as int)),
        decreases list.len() - i,
    {
        let id = list[i].id;
        assert(tasks[i as int].id == id);
        if id == usize::MAX {
            return None;
        }
        assert(tasks.take(i + 1).drop_last() =~= tasks.take(i as int));
        if id >= next {
            next = id + 1;
        }
        i += 1;
    }
    assert(tasks.take(i as int) =~= tasks);
    Some(next)
}

impl TodoApp {
    #[verifier::type_invariant]
    spec fn inv(self) -> bool {
        forall|i: int| 0 <= i < self.todos.len() ==> (#[trigger] self.todos[i]).id < self.next_id
    }

    proof fn lemma_view_wf(self)
        requires
            self.inv(),
        ensures
            self@.wf(),
    {
        assert forall|i: int| 0 <= i < self@.items.len() implies (#[trigger] self@.items[i]).id
            < self@.next_id by {
            assert(self@.items[i] == self.todos[i]@);
        }
    }

    /// The empty list, whose first task will get the identifier 0.
    pub fn new() -> (app: TodoApp)
        ensures
            app@ == Store::empty(),
    {
        let app = TodoApp { todos: Vec::new(), next_id: 0 };
        assert(app@.items =~= Seq::empty());
        app
    }

    /// Takes over what was read back from storage at start-up: `None` where
    /// nothing could be read or understood. Whatever the list held before is
    /// gone.
    pub fn load_todos(&mut self, loaded: Option<Vec<Todo>>)
        ensures
            final(self)@ == Store::load(loaded_tasks(loaded)),
            final(self)@.wf(),
    {
        let mut fresh = TodoApp::new();
        if let Some(list) = loaded {
            if let Some(next_id) = counter_for(&list) {
                proof {
                    lemma_next_free_id(tasks_of(list@));
                    assert forall|i: int| 0 <= i < list.len() implies (#[trigger] list[i]).id
                        < next_id by {
                        assert(tasks_of(list@)[i] == list[i]@);
                    }
                }
                fresh = TodoApp { todos: list, next_id };
            }
        }
        proof {
            use_type_invariant(&fresh);
            fresh.lemma_view_wf();
        }
        *self = fresh;
    }

    /// Adds a task with the text `text`, trimmed, unless nothing is left of
    /// it then. Returns whether a task was added, and so whether the list is
    /// to be written out.
    pub fn add_todo(&mut self, text: &str) -> (persist: bool)
        requires
            !is_blank(text@) ==> old(self)@.next_id < usize::MAX,
        ensures
            final(self)@ == old(self)@.add(text@),
            final(self)@.wf(),
            old(self)@.ids_distinct() ==> final(self)@.ids_distinct(),
            persist == !is_blank(text@),
    {
        proof {
            use_type_invariant(&*self);
            self.lemma_view_wf();
            lemma_add_keeps_order(self@, text@);
        }
        let kept = text.trim();
        if kept.is_empty() {
            return false;
        }
        let id = self.next_id;
        let mut todos: Vec<Todo> = Vec::new();
        std::mem::swap(&mut self.todos, &mut todos);
        todos.push(Todo::new(id, kept.to_owned()));
        self.next_id = id + 1;
        self.todos = todos;
        proof {
            self.lemma_view_wf();
            assert(self@.items =~= old(self)@.add(text@).items);
        }
        true
    }

    /// Flips the completion flag of the first task with the identifier `id`.
    /// Returns whether there was such a task, and so whether the list is to
    /// be written out.
    pub fn toggle_todo(&mut self, id: usize) -> (persist: bool)
        ensures
            final(self)@ == old(self)@.toggle(id as nat),
            final(self)@.wf(),
            old(self)@.ids_distinct() ==> final(self)@.ids_distinct(),
            persist == old(self)@.has_id(id as nat),
    {
        proof {
            use_type_invariant(&*self);
            lemma_toggle_keeps_order(self@, id as nat);
        }
        let ghost items = self@.items;
        let mut i: usize = 0;
        while i < self.todos.len()
            invariant
                i <= self.todos.len(),
                *self == *old(self),
                self.inv(),
                items == tasks_of(self.todos@),
                forall|j: int| 0 <= j < i ==> (#[trigger] items[j]).id != id as nat,
            decreases self.todos.len() - i,
        {
            if self.todos[i].id == id {
                assert(items[i as int].id == id as nat);
                proof {
                    lemma_position_unique(items, id as nat, i as int);
                }
                let mut todos: Vec<Todo> = Vec::new();
                std::mem::swap(&mut self.todos, &mut todos);
                todos[i].completed = !todos[i].completed;
                assert forall|j: int| 0 <= j < todos.len() implies (#[trigger] todos[j]).id
                    < self.next_id by {
                    assert(todos[j].id == old(self).todos[j].id);
                }
                self.todos = todos;
                proof {
                    self.lemma_view_wf();
                    assert(self@.items =~= items.update(i as int, items[i as int].flipped()));
                }
                return true;
            }
            i += 1;
        }
        proof {
            self.lemma_view_wf();
            lemma_position_unique(items, id as nat, items.len() as int);
        }
        false
    }

    /// Removes every task with the identifier `id`. The list is to be
    /// written out whether or not there was one.
    pub fn delete_todo(&mut self, id: usize) -> (persist: bool)
        ensures
            final(self)@ == old(self)@.delete(id as nat),
            final(self)@.wf(),
            old(self)@.ids_distinct() ==> final(self)@.ids_distinct(),
            persist,
    {
        proof {
            use_type_invariant(&*self);
            lemma_removal_keeps_order(self@, id as nat);
        }
        let ghost items = self@.items;
        let mut taken: Vec<Todo> = Vec::new();
        std::mem::swap(&mut self.todos, &mut taken);
        let mut kept: Vec<Todo> = Vec::new();
        for todo in it: taken.into_iter()
            invariant
                it.seq() == old(self).todos@,
                old(self).inv(),
                items == tasks_of(old(self).todos@),
                tasks_of(kept@) == items.take(it.index() as int).filter(other_than(id as nat)),
                forall|j: int| 0 <= j < kept.len() ==> (#[trigger] kept[j]).id < old(self).next_id,
        {
            proof {
                let n = it.index() as int;
                assert(items.take(n + 1) =~= items.take(n).push(todo@));
                lemma_filter_push(items.take(n), todo@, other_than(id as nat));
                assert(todo == old(self).todos[n]);
            }
            if todo.id != id {
                assert(tasks_of(kept@.push(todo)) =~= tasks_of(kept@).push(todo@));
                kept.push(todo);
            }
        }
        assert(items.take(items.len() as int) =~= items);
        self.todos = kept;
        proof {
            self.lemma_view_wf();
        }
        true
    }

    /// Removes every completed task. The list is to be written out whether
    /// or not there was one.
    pub fn clear_completed(&mut self) -> (persist: bool)
        ensures
            final(self)@ == old(self)@.clear_completed(),
            final(self)@.wf(),
            old(self)@.ids_distinct() ==> final(self)@.ids_distinct(),
            persist,
    {
        proof {
            use_type_invariant(&*self);
            lemma_removal_keeps_order(self@, 0);
        }
        let ghost items = self@.items;
        let mut taken: Vec<Todo> = Vec::new();
        std::mem::swap(&mut self.todos, &mut taken);
        let mut kept: Vec<Todo> = Vec::new();
        for todo in it: taken.into_iter()
            invariant
                it.seq() == old(self).todos@,
                old(self).inv(),
                items == tasks_of(old(self).todos@),
                tasks_of(kept@) == items.take(it.index() as int).filter(is_open()),
                forall|j: int| 0 <= j < kept.len() ==> (#[trigger] kept[j]).id < old(self).next_id,
        {
            proof {
                let n = it.index() as int;
                assert(items.take(n + 1) =~= items.take(n).push(todo@));
                lemma_filter_push(items.take(n), todo@, is_open());
                assert(todo == old(self).todos[n]);
            }
            if !todo.completed {
                assert(tasks_of(kept@.push(todo)) =~= tasks_of(kept@).push(todo@));
                kept.push(todo);
            }
        }
        assert(items.take(items.len() as int) =~= items);
        self.todos = kept;
        proof {
            self.lemma_view_wf();
        }
        true
    }

    /// The counts that are shown above the list.
    pub fn stats(&self) -> (stats: Stats)
        ensures
            stats.total == self@.items.len(),
            stats.completed == self@.completed_count(),
            stats.pending == self@.pending_count(),
    {
        let ghost items = self@.items;
        let mut completed: usize = 0;
        let mut i: usize = 0;
        while i < self.todos.len()
            invariant
                i <= self.todos.len(),
                items == tasks_of(self.todos@),
                completed == items.take(i as int).filter(is_done()).len(),
                completed <= i,
            decreases self.todos.len() - i,
        {
            proof {
                assert(items.take(i + 1) =~= items.take(i as int).push(items[i as int]));
                lemma_filter_push(items.take(i as int), items[i as int], is_done());
            }
            if self.todos[i].completed {
                completed += 1;
            }
            i += 1;
        }
        assert(items.take(i as int) =~= items);
        let total = self.todos.len();
        Stats { total, completed, pending: total - completed }
    }

    /// The tasks as they are shown: the open ones first, then the completed
    /// ones, each group in the order of the list, which stays as it is.
    pub fn display_order(&self) -> (shown: Vec<Todo>)
        ensures
            tasks_of(shown@) == self@.display_order(),
    {
        let ghost items = self@.items;
        let mut shown: Vec<Todo> = Vec::new();
        let mut i: usize = 0;
        while i < self.todos.len()
            invariant
                i <= self.todos.len(),
                items == tasks_of(self.todos@),
                tasks_of(shown@) == items.take(i as int).filter(is_open()),
            decreases self.todos.len() - i,
        {
            proof {
                assert(items.take(i + 1) =~= items.take(i as int).push(items[i as int]));
                lemma_filter_push(items.take(i as int), items[i as int], is_open());
            }
            if !self.todos[i].completed {
                let copy = self.todos[i].clone();
                assert(tasks_of(shown@.push(copy)) =~= tasks_of(shown@).push(copy@));
                shown.push(copy);
            }
            i += 1;
        }
        assert(items.take(i as int) =~= items);
        i = 0;
        while i < self.todos.len()
            invariant
                i <= self.todos.len(),
                items == tasks_of(self.todos@),
                tasks_of(shown@) == items.filter(is_open()) + items.take(i as int).filter(is_done()),
            decreases self.todos.len() - i,
        {
            proof {
                assert(items.take(i + 1) =~= items.take(i as int).push(items[i as int]));
                lemma_filter_push(items.take(i as int), items[i as int], is_done());
            }
            if self.todos[i].completed {
                let copy = self.todos[i].clone();
                assert(tasks_of(shown@.push(copy)) =~= tasks_of(shown@).push(copy@));
                assert(items.filter(is_open()) + items.take(i as int).filter(is_done()).push(copy@)
                    =~= (items.filter(is_open()) + items.take(i as int).filter(is_done())).push(copy@));
                shown.push(copy);
            }
            i += 1;
        }
        assert(items.take(i as int) =~= items);
        shown
    }

    /// The tasks, in the order in which they were added.
    pub fn todos(&self) -> (todos: &[Todo])
        ensures
            tasks_of(todos@) == self@.items,
            self@.wf(),
    {
        proof {
            use_type_invariant(self);
            self.lemma_view_wf();
        }
        self.todos.as_slice()
    }

    /// The identifier that the next new task will get.
    pub fn next_id(&self) -> (next_id: usize)
        ensures
            next_id == self@.next_id,
            self@.wf(),
    {
        proof {
            use_type_invariant(self);
            self.lemma_view_wf();
        }
        self.next_id
    }
}

} // verus!
