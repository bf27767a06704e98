//! The mathematical model of the task list: what a task is, what the store
//! holds, and what each operation makes of it.

use crate::text::{is_blank, trimmed};
use vstd::prelude::*;

verus! {

/// One entry of the list.
pub struct Task {
    pub id: nat,
    pub text: Seq<char>,
    pub completed: bool,
}

/// The ordered list of tasks together with the identifier that the next new
/// task will get.
pub struct Store {
    pub items: Seq<Task>,
    pub next_id: nat,
}

impl Task {
    /// The task as it is when first added: not completed.
    pub open spec fn fresh(id: nat, text: Seq<char>) -> Task {
        Task { id, text, completed: false }
    }

    /// The same task with its completion flag flipped.
    pub open spec fn flipped(self) -> Task {
        Task { completed: !self.completed, ..self }
    }
}

/// The rule that passes every task but those with the identifier `id`.
pub open spec fn other_than(id: nat) -> spec_fn(Task) -> bool {
    |t: Task| t.id != id
}

/// The rule that passes the tasks that are not completed.
pub open spec fn is_open() -> spec_fn(Task) -> bool {
    |t: Task| !t.completed
}

/// The rule that passes the completed tasks.
pub open spec fn is_done() -> spec_fn(Task) -> bool {
    |t: Task| t.completed
}

/// Those of `texts` that are not blank, in their order.
pub open spec fn texts_added(texts: Seq<Seq<char>>) -> Seq<Seq<char>> {
    texts.filter(|text: Seq<char>| !is_blank(text))
}

/// The index of the first of `items` whose identifier is `id`, or the length
/// of `items` where there is none.
pub open spec fn position(items: Seq<Task>, id: nat) -> int
    decreases items.len(),
{
    if items.len() == 0 {
        0
    } else if items.first().id == id {
        0
    } else {
        1 + position(items.drop_first(), id)
    }
}

/// The least number that is greater than every identifier in `items`: one
/// more than the greatest of them, or 0 where there is none.
pub open spec fn next_free_id(items: Seq<Task>) -> nat
    decreases items.len(),
{
    if items.len() == 0 {
        0
    } else {
        let rest = next_free_id(items.drop_last());
        if items.last().id < rest {
            rest
        } else {
            items.last().id + 1
        }
    }
}

impl Store {
    /// The store that holds nothing and has handed out no identifier.
    pub open spec fn empty() -> Store {
        Store { items: Seq::empty(), next_id: 0 }
    }

    /// Every identifier in the list lies below the next one to be handed out.
    pub open spec fn wf(self) -> bool {
        forall|i: int| 0 <= i < self.items.len() ==> (#[trigger] self.items[i]).id < self.next_id
    }

    /// No two entries share an identifier.
    pub open spec fn ids_distinct(self) -> bool {
        forall|i: int, j: int|
            0 <= i < j < self.items.len() ==> (#[trigger] self.items[i]).id != (
            #[trigger] self.items[j]).id
    }

    /// Whether some entry has the identifier `id`.
    pub open spec fn has_id(self, id: nat) -> bool {
        exists|i: int| 0 <= i < self.items.len() && (#[trigger] self.items[i]).id == id
    }

    /// Adding `text`: nothing where it is blank; otherwise a fresh task with
    /// the trimmed text goes to the end and the counter moves on by one.
    pub open spec fn add(self, text: Seq<char>) -> Store {
        if is_blank(text) {
            self
        } else {
            Store {
                items: self.items.push(Task::fresh(self.next_id, trimmed(text))),
                next_id: self.next_id + 1,
            }
        }
    }

    /// Adding each of `texts` in turn.
    pub open spec fn add_all(self, texts: Seq<Seq<char>>) -> Store
        decreases texts.len(),
    {
        if texts.len() == 0 {
            self
        } else {
            self.add_all(texts.drop_last()).add(texts.last())
        }
    }

    /// Toggling `id`: the first entry with that identifier has its flag
    /// flipped; nothing where there is no such entry.
    pub open spec fn toggle(self, id: nat) -> Store {
        let i = position(self.items, id);
        if i < self.items.len() {
            Store { items: self.items.update(i, self.items[i].flipped()), ..self }
        } else {
            self
        }
    }

    /// Deleting `id`: every entry with that identifier leaves, the others
    /// stay as they are and in their order.
    pub open spec fn delete(self, id: nat) -> Store {
        Store { items: self.items.filter(other_than(id)), ..self }
    }

    /// Clearing: every completed entry leaves, the others stay as they are
    /// and in their order.
    pub open spec fn clear_completed(self) -> Store {
        Store { items: self.items.filter(is_open()), ..self }
    }

    /// How many entries are completed.
    pub open spec fn completed_count(self) -> nat {
        self.items.filter(is_done()).len()
    }

    /// How many entries are still open: the others.
    pub open spec fn pending_count(self) -> nat {
        (self.items.len() - self.completed_count()) as nat
    }

    /// The list as it is shown: the open entries first, then the completed
    /// ones, each group in the order of the list.
    pub open spec fn display_order(self) -> Seq<Task> {
        self.items.filter(is_open()) + self.items.filter(is_done())
    }

    /// Whether a list that was read back can be taken over: each of its
    /// identifiers must leave room for a greater one.
    pub open spec fn loadable(items: Seq<Task>) -> bool {
        forall|i: int| 0 <= i < items.len() ==> (#[trigger] items[i]).id < usize::MAX
    }

    /// The store after start-up. A list that was read back and can be taken
    /// over becomes the list, with the counter just above its identifiers;
    /// anything else gives the empty store.
    pub open spec fn load(loaded: Option<Seq<Task>>) -> Store {
        match loaded {
            Some(items) if Self::loadable(items) => Store { items, next_id: next_free_id(items) },
            _ => Self::empty(),
        }
    }
}

/// `position` points at the first entry with the identifier, and past the
/// end exactly where no entry has it.
pub proof fn lemma_position(items: Seq<Task>, id: nat)
    ensures
        0 <= position(items, id) <= items.len(),
        forall|j: int| 0 <= j < position(items, id) ==> (#[trigger] items[j]).id != id,
        position(items, id) < items.len() ==> items[position(items, id)].id == id,
    decreases items.len(),
{
    if items.len() > 0 && items.first().id != id {
        let rest = items.drop_first();
        lemma_position(rest, id);
        assert forall|j: int| 0 <= j < position(items, id) implies (#[trigger] items[j]).id
            != id by {
            if j > 0 {
                assert(items[j] == rest[j - 1]);
            }
        }
    }
}

/// An index whose entry has the identifier, while none before it has, is the
/// one that `position` gives.
pub proof fn lemma_position_unique(items: Seq<Task>, id: nat, i: int)
    requires
        0 <= i <= items.len(),
        forall|j: int| 0 <= j < i ==> (#[trigger] items[j]).id != id,
        i < items.len() ==> items[i].id == id,
    ensures
        position(items, id) == i,
{
    lemma_position(items, id);
    let p = position(items, id);
    if p < i {
        assert(items[p].id != id);
    }
}

/// `next_free_id` is greater than every identifier in the list, and the
/// least such number.
pub proof fn lemma_next_free_id(items: Seq<Task>)
    ensures
        forall|i: int| 0 <= i < items.len() ==> (#[trigger] items[i]).id < next_free_id(items),
        items.len() == 0 ==> next_free_id(items) == 0,
        items.len() > 0 ==> exists|i: int|
            0 <= i < items.len() && (#[trigger] items[i]).id + 1 == next_free_id(items),
    decreases items.len(),
{
    if items.len() > 0 {
        let rest = items.drop_last();
        lemma_next_free_id(rest);
        assert forall|i: int| 0 <= i < items.len() implies (#[trigger] items[i]).id
            < next_free_id(items) by {
            if i < rest.len() {
                assert(items[i] == rest[i]);
            }
        }
        if items.last().id < next_free_id(rest) {
            let i = choose|i: int|
                0 <= i < rest.len() && (#[trigger] rest[i]).id + 1 == next_free_id(rest);
            assert(items[i] == rest[i]);
        } else {
            assert(items[items.len() - 1].id + 1 == next_free_id(items));
        }
    }
}

} // verus!
