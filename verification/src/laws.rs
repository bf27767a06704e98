//! What holds of the operations on the list, whatever the list and the
//! arguments: each law is proved from what the model says the operation does.

use crate::model::{
    is_done, is_open, lemma_next_free_id, lemma_position, lemma_position_unique, next_free_id,
    other_than, position, texts_added, Store, Task,
};
use crate::order::{
    lemma_filter_keeps, lemma_filter_origin, lemma_filter_push, lemma_filter_twice,
    lemma_rank_monotone, rank,
};
use crate::text::{
    is_blank, is_whitespace, lemma_blank_iff_all_whitespace, lemma_trimmed_is_tight, trimmed,
};
use vstd::prelude::*;

verus! {

/// Adding a text that holds nothing but white space, or nothing at all,
/// changes neither the list nor the counter.
pub proof fn lemma_add_blank(s: Store, text: Seq<char>)
    requires
        forall|i: int| 0 <= i < text.len() ==> is_whitespace(#[trigger] text[i]),
    ensures
        s.add(text) == s,
{
    lemma_blank_iff_all_whitespace(text);
}

/// Adding a text that is not blank appends one open task that has the old
/// counter as its identifier and the trimmed text, and moves the counter on
/// by one; what was in the list stays as it was.
pub proof fn lemma_add_text(s: Store, text: Seq<char>)
    requires
        !is_blank(text),
    ensures
        s.add(text).items.len() == s.items.len() + 1,
        s.add(text).items.drop_last() == s.items,
        s.add(text).items.last() == Task::fresh(s.next_id, trimmed(text)),
        s.add(text).next_id == s.next_id + 1,
{
    assert(s.add(text).items.drop_last() =~= s.items);
}

/// The text of an added task is never blank: it starts and ends with a
/// character that is no white space.
pub proof fn lemma_added_text(s: Store, text: Seq<char>)
    requires
        !is_blank(text),
    ensures
        s.add(text).items.last().text.len() > 0,
        !is_whitespace(s.add(text).items.last().text.first()),
        !is_whitespace(s.add(text).items.last().text.last()),
        !is_blank(s.add(text).items.last().text),
{
    lemma_trimmed_is_tight(text);
}

/// Adding keeps a list in good order, and keeps the identifiers apart where
/// they were apart in a list in good order.
pub proof fn lemma_add_keeps_order(s: Store, text: Seq<char>)
    requires
        s.wf(),
    ensures
        s.add(text).wf(),
        s.ids_distinct() ==> s.add(text).ids_distinct(),
{
    let r = s.add(text);
    if !is_blank(text) {
        assert forall|i: int| 0 <= i < r.items.len() implies (#[trigger] r.items[i]).id
            < r.next_id by {
            if i < s.items.len() {
                assert(s.items[i].id < s.next_id);
            }
        }
        if s.ids_distinct() {
            assert forall|i: int, j: int| 0 <= i < j < r.items.len() implies (
            #[trigger] r.items[i]).id != (#[trigger] r.items[j]).id by {
                assert(s.items[i].id < s.next_id);
                if j < s.items.len() {
                    assert(s.items[i].id != s.items[j].id);
                }
            }
        }
    }
}

/// After any run of additions the list has grown by as many tasks as there
/// were texts that are not blank. The new tasks stand behind the old ones in
/// the order of the calls, and their identifiers count up from the old
/// counter, which has moved on by their number.
pub proof fn lemma_add_all(s: Store, texts: Seq<Seq<char>>)
    ensures
        s.add_all(texts).items.len() == s.items.len() + texts_added(texts).len(),
        s.add_all(texts).next_id == s.next_id + texts_added(texts).len(),
        s.add_all(texts).items.take(s.items.len() as int) == s.items,
        forall|i: int|
            s.items.len() <= i < s.add_all(texts).items.len() ==> #[trigger] s.add_all(
                texts,
            ).items[i] == Task::fresh(
                (s.next_id + i - s.items.len()) as nat,
                trimmed(texts_added(texts)[i - s.items.len()]),
            ),
    decreases texts.len(),
{
    let keep = |text: Seq<char>| !is_blank(text);
    let r = s.add_all(texts);
    if texts.len() == 0 {
        assert(texts.filter(keep) =~= Seq::empty()) by {
            reveal(Seq::filter);
        }
        assert(r.items.take(s.items.len() as int) =~= s.items);
    } else {
        let before = s.add_all(texts.drop_last());
        lemma_add_all(s, texts.drop_last());
        lemma_filter_push(texts.drop_last(), texts.last(), keep);
        assert(texts.drop_last().push(texts.last()) =~= texts);
        assert(r.items.take(s.items.len() as int) =~= before.items.take(s.items.len() as int));
        assert forall|i: int| s.items.len() <= i < r.items.len() implies #[trigger] r.items[i]
            == Task::fresh(
            (s.next_id + i - s.items.len()) as nat,
            trimmed(texts_added(texts)[i - s.items.len()]),
        ) by {
            if i < before.items.len() {
                assert(r.items[i] == before.items[i]);
            }
        }
    }
}

/// The identifiers that a run of additions hands out are strictly
/// increasing in the order of the calls, and greater than every identifier
/// that a list in good order held before.
pub proof fn lemma_added_ids_increase(s: Store, texts: Seq<Seq<char>>)
    requires
        s.wf(),
    ensures
        s.add_all(texts).wf(),
        forall|i: int, j: int|
            0 <= i < j < s.add_all(texts).items.len() && s.items.len() <= j ==> (
            #[trigger] s.add_all(texts).items[i]).id < (#[trigger] s.add_all(texts).items[j]).id,
        s.ids_distinct() ==> s.add_all(texts).ids_distinct(),
{
    let r = s.add_all(texts);
    lemma_add_all(s, texts);
    assert forall|i: int| 0 <= i < r.items.len() implies (#[trigger] r.items[i]).id
        < r.next_id by {
        if i < s.items.len() {
            assert(r.items[i] == r.items.take(s.items.len() as int)[i]);
            assert(s.items[i].id < s.next_id);
        }
    }
    assert forall|i: int, j: int|
        0 <= i < j < r.items.len() && s.items.len() <= j implies (#[trigger] r.items[i]).id < (
    #[trigger] r.items[j]).id by {
        if i < s.items.len() {
            assert(r.items[i] == r.items.take(s.items.len() as int)[i]);
            assert(s.items[i].id < s.next_id);
        }
    }
    if s.ids_distinct() {
        assert forall|i: int, j: int| 0 <= i < j < r.items.len() implies (#[trigger] r.items[i]).id
            != (#[trigger] r.items[j]).id by {
            if j < s.items.len() {
                assert(r.items[i] == r.items.take(s.items.len() as int)[i]);
                assert(r.items[j] == r.items.take(s.items.len() as int)[j]);
                assert(s.items[i].id != s.items[j].id);
            }
        }
    }
}

/// Toggling an identifier that no task has changes nothing.
pub proof fn lemma_toggle_absent(s: Store, id: nat)
    requires
        !s.has_id(id),
    ensures
        s.toggle(id) == s,
{
    lemma_position(s.items, id);
    let p = position(s.items, id);
    if p < s.items.len() {
        assert(s.items[p].id == id);
    }
}

/// Toggling an identifier that some task has flips the flag of the first
/// such task and leaves every other task, the order, the identifiers, the
/// texts and the counter as they were.
pub proof fn lemma_toggle_present(s: Store, id: nat)
    requires
        s.has_id(id),
    ensures
        0 <= position(s.items, id) < s.items.len(),
        s.items[position(s.items, id)].id == id,
        forall|j: int| 0 <= j < position(s.items, id) ==> (#[trigger] s.items[j]).id != id,
        s.toggle(id).next_id == s.next_id,
        s.toggle(id).items.len() == s.items.len(),
        s.toggle(id).items[position(s.items, id)] == s.items[position(s.items, id)].flipped(),
        forall|j: int|
            0 <= j < s.items.len() && j != position(s.items, id) ==> #[trigger] s.toggle(
                id,
            ).items[j] == s.items[j],
{
    lemma_position(s.items, id);
}

/// Toggling the same identifier twice gives back the list as it was.
pub proof fn lemma_toggle_twice(s: Store, id: nat)
    ensures
        s.toggle(id).toggle(id) == s,
{
    lemma_position(s.items, id);
    let p = position(s.items, id);
    if p < s.items.len() {
        let once = s.toggle(id);
        lemma_position_unique(once.items, id, p);
        assert(once.toggle(id).items =~= s.items);
    }
}

/// Toggling keeps a list in good order, and keeps identifiers apart that
/// were apart.
pub proof fn lemma_toggle_keeps_order(s: Store, id: nat)
    ensures
        s.wf() ==> s.toggle(id).wf(),
        s.ids_distinct() ==> s.toggle(id).ids_distinct(),
{
    lemma_position(s.items, id);
    let r = s.toggle(id);
    assert forall|i: int| 0 <= i < r.items.len() implies (#[trigger] r.items[i]).id
        == s.items[i].id by {}
    if s.wf() {
        assert forall|i: int| 0 <= i < r.items.len() implies (#[trigger] r.items[i]).id
            < r.next_id by {
            assert(s.items[i].id < s.next_id);
        }
    }
    if s.ids_distinct() {
        assert forall|i: int, j: int| 0 <= i < j < r.items.len() implies (#[trigger] r.items[i]).id
            != (#[trigger] r.items[j]).id by {
            assert(s.items[i].id != s.items[j].id);
        }
    }
}

/// What stays when a list is filtered is in good order where the list was,
/// and has its identifiers apart where the list had.
proof fn lemma_filter_keeps_order(s: Store, keep: spec_fn(Task) -> bool)
    ensures
        s.wf() ==> (Store { items: s.items.filter(keep), ..s }).wf(),
        s.ids_distinct() ==> (Store { items: s.items.filter(keep), ..s }).ids_distinct(),
{
    let r = Store { items: s.items.filter(keep), ..s };
    if s.wf() {
        assert forall|k: int| 0 <= k < r.items.len() implies (#[trigger] r.items[k]).id
            < r.next_id by {
            let i = lemma_filter_origin(s.items, keep, k);
            assert(s.items[i].id < s.next_id);
        }
    }
    if s.ids_distinct() {
        assert forall|k: int, l: int| 0 <= k < l < r.items.len() implies (#[trigger] r.items[k]).id
            != (#[trigger] r.items[l]).id by {
            let i = lemma_filter_origin(s.items, keep, k);
            let j = lemma_filter_origin(s.items, keep, l);
            if i >= j {
                lemma_rank_monotone(s.items, keep, j, i);
            }
            assert(s.items[i].id != s.items[j].id);
        }
    }
}

/// Deleting an identifier removes exactly the tasks that have it. No task of
/// the new list has the identifier. Every task with another identifier is
/// still there, unchanged, and stands at its rank; the ranks go up from each
/// such task to every later place, so two of them are in the order in which
/// they were; and the new list is as long as there were such tasks. The
/// counter stays.
pub proof fn lemma_delete(s: Store, id: nat)
    ensures
        !s.delete(id).has_id(id),
        s.delete(id).next_id == s.next_id,
        s.delete(id).items.len() == rank(s.items, other_than(id), s.items.len() as int),
        forall|i: int|
            0 <= i < s.items.len() && s.items[i].id != id ==> {
                let k = #[trigger] rank(s.items, other_than(id), i);
                0 <= k < s.delete(id).items.len() && s.delete(id).items[k] == s.items[i]
            },
        forall|i: int, j: int|
            0 <= i < j < s.items.len() && s.items[i].id != id ==> #[trigger] rank(
                s.items,
                other_than(id),
                i,
            ) < #[trigger] rank(s.items, other_than(id), j),
{
    let keep = other_than(id);
    let r = s.delete(id);
    lemma_stays_in_order(s.items, keep);
    assert forall|k: int| 0 <= k < r.items.len() implies (#[trigger] r.items[k]).id != id by {
        lemma_filter_origin(s.items, keep, k);
    }
}

/// Clearing removes exactly the completed tasks. No task of the new list is
/// completed. Every open task is still there, unchanged, and stands at its
/// rank; the ranks go up from each such task to every later place, so two of
/// them are in the order in which they were; and the new list is as long as
/// there were such tasks. The counter stays.
pub proof fn lemma_clear_completed(s: Store)
    ensures
        forall|k: int|
            0 <= k < s.clear_completed().items.len() ==> !(
            #[trigger] s.clear_completed().items[k]).completed,
        s.clear_completed().next_id == s.next_id,
        s.clear_completed().items.len() == rank(
            s.items,
            is_open(),
            s.items.len() as int,
        ),
        forall|i: int|
            0 <= i < s.items.len() && !s.items[i].completed ==> {
                let k = #[trigger] rank(s.items, is_open(), i);
                0 <= k < s.clear_completed().items.len() && s.clear_completed().items[k]
                    == s.items[i]
            },
        forall|i: int, j: int|
            0 <= i < j < s.items.len() && !s.items[i].completed ==> #[trigger] rank(
                s.items,
                is_open(),
                i,
            ) < #[trigger] rank(s.items, is_open(), j),
{
    let keep = is_open();
    let r = s.clear_completed();
    lemma_stays_in_order(s.items, keep);
    assert forall|k: int| 0 <= k < r.items.len() implies !(#[trigger] r.items[k]).completed by {
        lemma_filter_origin(s.items, keep, k);
    }
}

/// The elements that pass a filter stand in the filtered sequence at their
/// ranks, the ranks go up strictly from one such element to any later index,
/// and the filtered sequence is as long as the rank of the end.
proof fn lemma_stays_in_order(items: Seq<Task>, keep: spec_fn(Task) -> bool)
    ensures
        items.filter(keep).len() == rank(items, keep, items.len() as int),
        forall|i: int|
            0 <= i < items.len() && keep(items[i]) ==> {
                let k = #[trigger] rank(items, keep, i);
                0 <= k < items.filter(keep).len() && items.filter(keep)[k] == items[i]
            },
        forall|i: int, j: int|
            0 <= i < j < items.len() && keep(items[i]) ==> #[trigger] rank(items, keep, i)
                < #[trigger] rank(items, keep, j),
{
    assert(items.take(items.len() as int) =~= items);
    assert forall|i: int| 0 <= i < items.len() && keep(items[i]) implies {
        let k = #[trigger] rank(items, keep, i);
        0 <= k < items.filter(keep).len() && items.filter(keep)[k] == items[i]
    } by {
        lemma_filter_keeps(items, keep, i);
    }
    assert forall|i: int, j: int|
        0 <= i < j < items.len() && keep(items[i]) implies #[trigger] rank(items, keep, i)
        < #[trigger] rank(items, keep, j) by {
        lemma_rank_monotone(items, keep, i, j);
    }
}

/// Clearing a second time changes nothing.
pub proof fn lemma_clear_completed_twice(s: Store)
    ensures
        s.clear_completed().clear_completed() == s.clear_completed(),
{
    lemma_filter_twice(s.items, is_open());
}

/// Deleting the same identifier a second time changes nothing.
pub proof fn lemma_delete_twice(s: Store, id: nat)
    ensures
        s.delete(id).delete(id) == s.delete(id),
{
    lemma_filter_twice(s.items, other_than(id));
}

/// Deleting and clearing keep a list in good order, and keep identifiers
/// apart that were apart.
pub proof fn lemma_removal_keeps_order(s: Store, id: nat)
    ensures
        s.wf() ==> s.delete(id).wf() && s.clear_completed().wf(),
        s.ids_distinct() ==> s.delete(id).ids_distinct() && s.clear_completed().ids_distinct(),
{
    lemma_filter_keeps_order(s, other_than(id));
    lemma_filter_keeps_order(s, is_open());
}

/// A list in which the identifiers are apart has at most one task with a
/// given identifier, so deleting it takes away one task or none.
pub proof fn lemma_delete_one(s: Store, id: nat)
    requires
        s.ids_distinct(),
    ensures
        s.has_id(id) ==> s.delete(id).items.len() == s.items.len() - 1,
        !s.has_id(id) ==> s.delete(id) == s,
    decreases s.items.len(),
{
    let keep = other_than(id);
    reveal(Seq::filter);
    if s.items.len() == 0 {
        assert(s.items.filter(keep) =~= s.items);
    } else {
        let init = Store { items: s.items.drop_last(), ..s };
        assert forall|i: int, j: int| 0 <= i < j < init.items.len() implies (
        #[trigger] init.items[i]).id != (#[trigger] init.items[j]).id by {
            assert(s.items[i].id != s.items[j].id);
        }
        lemma_delete_one(init, id);
        if init.has_id(id) {
            let i = choose|i: int| 0 <= i < init.items.len() && (#[trigger] init.items[i]).id == id;
            assert(s.items[i].id == id);
            assert(s.items[i].id != s.items[s.items.len() - 1].id);
        } else if s.items.last().id == id {
            assert(s.items[s.items.len() - 1].id == id);
        } else {
            assert forall|i: int| 0 <= i < s.items.len() implies (#[trigger] s.items[i]).id
                != id by {
                if i < init.items.len() {
                    assert(init.items[i].id != id);
                }
            }
            assert(init.items.push(s.items.last()) =~= s.items);
        }
    }
}

/// Starting again from what a list in good order held gives the same tasks
/// in the same order. The counter is then one more than the greatest
/// identifier that was held, or 0 where nothing was held; it is never above
/// the counter that the list had.
pub proof fn lemma_reload(s: Store)
    requires
        s.wf(),
        s.next_id <= usize::MAX,
    ensures
        Store::load(Some(s.items)).items == s.items,
        Store::load(Some(s.items)).next_id == next_free_id(s.items),
        Store::load(Some(s.items)).next_id <= s.next_id,
        Store::load(Some(s.items)).wf(),
        s.items.len() == 0 ==> Store::load(Some(s.items)).next_id == 0,
        s.items.len() > 0 ==> exists|i: int|
            0 <= i < s.items.len() && (#[trigger] s.items[i]).id + 1 == Store::load(
                Some(s.items),
            ).next_id && forall|j: int|
                0 <= j < s.items.len() ==> (#[trigger] s.items[j]).id <= s.items[i].id,
{
    lemma_next_free_id(s.items);
    assert(Store::loadable(s.items)) by {
        assert forall|i: int| 0 <= i < s.items.len() implies (#[trigger] s.items[i]).id
            < usize::MAX by {
            assert(s.items[i].id < s.next_id);
        }
    }
    if s.items.len() > 0 {
        let i = choose|i: int|
            0 <= i < s.items.len() && (#[trigger] s.items[i]).id + 1 == next_free_id(s.items);
        assert(s.items[i].id < s.next_id);
        assert forall|j: int| 0 <= j < s.items.len() implies (#[trigger] s.items[j]).id
            <= s.items[i].id by {}
    }
}

/// Starting from nothing readable, or from a list with an identifier that
/// leaves no room above it, gives the empty list with the counter at 0.
pub proof fn lemma_load_failure(loaded: Option<Seq<Task>>)
    requires
        loaded is None || !Store::loadable(loaded->0),
    ensures
        Store::load(loaded) == Store::empty(),
{
}

/// The open and the completed tasks together are all the tasks, and the
/// number of open tasks is the number of those whose flag is not set.
pub proof fn lemma_counts(s: Store)
    ensures
        s.completed_count() + s.pending_count() == s.items.len(),
        s.pending_count() == s.items.filter(is_open()).len(),
        s.clear_completed().items.len() == s.pending_count(),
    decreases s.items.len(),
{
    reveal(Seq::filter);
    if s.items.len() > 0 {
        lemma_counts(Store { items: s.items.drop_last(), ..s });
    }
}

/// What is shown is the whole list, split in two: an open task stands at
/// its rank among the open ones, a completed task behind all the open ones
/// at its rank among the completed ones.
pub proof fn lemma_display_order(s: Store, i: int)
    requires
        0 <= i < s.items.len(),
    ensures
        s.display_order().len() == s.items.len(),
        !s.items[i].completed ==> {
            let k = rank(s.items, is_open(), i);
            0 <= k < s.pending_count() && s.display_order()[k] == s.items[i]
        },
        s.items[i].completed ==> {
            let k = s.pending_count() + rank(s.items, is_done(), i);
            s.pending_count() <= k < s.items.len() && s.display_order()[k] == s.items[i]
        },
{
    lemma_counts(s);
    if s.items[i].completed {
        lemma_filter_keeps(s.items, is_done(), i);
    } else {
        lemma_filter_keeps(s.items, is_open(), i);
    }
}

} // verus!
