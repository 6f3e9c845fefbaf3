//! The crate-level guarantees that relate several operations, each stated
//! and proved over the store model that the contracts in
//! [`crate::task_repository`] and [`crate::handlers`] speak of.

use vstd::prelude::*;

use crate::domain::{
    completed_of, contains_id, delete_of, distinct_ids, id_set, incomplete_of,
    lemma_completed_members, lemma_incomplete_members, mark_of, store_inv, TaskSpec,
};

verus! {

/// A freshly issued identifier is distinct from the identifier of every
/// task the store holds; since the next identifier only ever grows and
/// identifiers of deleted tasks also stayed below it, it is distinct from
/// every identifier ever issued.
pub proof fn lemma_fresh_id(tasks: Seq<TaskSpec>, next_id: int)
    requires
        store_inv(tasks, next_id),
    ensures
        !contains_id(tasks, next_id),
{
    if contains_id(tasks, next_id) {
        let i = choose|i: int| 0 <= i < tasks.len() && #[trigger] tasks[i].id == next_id;
        assert(tasks[i].id < next_id);
    }
}

/// Listing is idempotent: two incomplete listings of the same store
/// contents, with no mutation in between, are one and the same sequence,
/// with the same tasks in the same order.
pub proof fn lemma_listing_idempotent(
    tasks: Seq<TaskSpec>,
    first: Seq<TaskSpec>,
    second: Seq<TaskSpec>,
)
    requires
        first == incomplete_of(tasks),
        second == incomplete_of(tasks),
    ensures
        first == second,
{
}

/// At any instant the completed and the incomplete listings of a store
/// with distinct identifiers hold disjoint sets of identifiers, and
/// together exactly the identifiers of the live tasks.
pub proof fn lemma_listing_partition(tasks: Seq<TaskSpec>)
    requires
        distinct_ids(tasks),
    ensures
        id_set(completed_of(tasks)).disjoint(id_set(incomplete_of(tasks))),
        id_set(completed_of(tasks)).union(id_set(incomplete_of(tasks))) == id_set(tasks),
{
    lemma_completed_members(tasks);
    lemma_incomplete_members(tasks);
    let cs = completed_of(tasks);
    let is = incomplete_of(tasks);
    assert forall|id: int| #[trigger]
        id_set(cs).contains(id) implies !id_set(is).contains(id) by {
        if contains_id(cs, id) && contains_id(is, id) {
            let i = choose|i: int| 0 <= i < cs.len() && #[trigger] cs[i].id == id;
            let j = choose|j: int| 0 <= j < is.len() && #[trigger] is[j].id == id;
            assert(cs.contains(cs[i]));
            assert(is.contains(is[j]));
            let a = choose|a: int| 0 <= a < tasks.len() && tasks[a] == cs[i];
            let b = choose|b: int| 0 <= b < tasks.len() && tasks[b] == is[j];
            if a != b {
                assert(tasks[a].id != tasks[b].id);
            }
        }
    }
    assert forall|id: int| #[trigger]
        id_set(cs).union(id_set(is)).contains(id) <==> id_set(tasks).contains(id) by {
        if contains_id(cs, id) {
            let i = choose|i: int| 0 <= i < cs.len() && #[trigger] cs[i].id == id;
            assert(cs.contains(cs[i]));
            let a = choose|a: int| 0 <= a < tasks.len() && tasks[a] == cs[i];
            assert(tasks[a].id == id);
        }
        if contains_id(is, id) {
            let j = choose|j: int| 0 <= j < is.len() && #[trigger] is[j].id == id;
            assert(is.contains(is[j]));
            let b = choose|b: int| 0 <= b < tasks.len() && tasks[b] == is[j];
            assert(tasks[b].id == id);
        }
        if contains_id(tasks, id) {
            let i = choose|i: int| 0 <= i < tasks.len() && #[trigger] tasks[i].id == id;
            assert(tasks.contains(tasks[i]));
            if tasks[i].complete_date is Some {
                assert(cs.contains(tasks[i]));
                let k = choose|k: int| 0 <= k < cs.len() && cs[k] == tasks[i];
                assert(cs[k].id == id);
            } else {
                assert(is.contains(tasks[i]));
                let k = choose|k: int| 0 <= k < is.len() && is[k] == tasks[i];
                assert(is[k].id == id);
            }
        }
    }
    assert(id_set(cs).union(id_set(is)) =~= id_set(tasks));
}

/// Positional resolution: deleting the task at position `n` of the
/// incomplete listing (positions are 1-based) removes exactly that entry
/// from the listing; every other incomplete task keeps its identifier and
/// its relative order.
pub proof fn lemma_positional_removal(tasks: Seq<TaskSpec>, next_id: int, n: int)
    requires
        store_inv(tasks, next_id),
        1 <= n <= incomplete_of(tasks).len(),
    ensures
        incomplete_of(delete_of(tasks, incomplete_of(tasks)[n - 1].id)) == incomplete_of(
            tasks,
        ).remove(n - 1),
{
    let snap = incomplete_of(tasks);
    let id = snap[n - 1].id;
    crate::domain::lemma_incomplete_preserves_inv(tasks, next_id);
    crate::domain::lemma_incomplete_delete_commute(tasks, id);
    assert forall|k: int| 0 <= k < snap.len() && k != n - 1 implies #[trigger] snap[k].id
        != id by {
        assert(snap[k].id != snap[n - 1].id);
    }
    crate::domain::lemma_delete_of_at(snap, id, n - 1);
}

/// Positional completion: marking the task at position `n` of the
/// incomplete listing (positions are 1-based) complete removes exactly
/// that entry from the incomplete listing — every other incomplete task is
/// untouched — and the marked task appears among the completed ones.
pub proof fn lemma_positional_completion(tasks: Seq<TaskSpec>, next_id: int, n: int, ts: int)
    requires
        store_inv(tasks, next_id),
        1 <= n <= incomplete_of(tasks).len(),
    ensures
        incomplete_of(mark_of(tasks, incomplete_of(tasks)[n - 1].id, ts)) == incomplete_of(
            tasks,
        ).remove(n - 1),
        contains_id(
            completed_of(mark_of(tasks, incomplete_of(tasks)[n - 1].id, ts)),
            incomplete_of(tasks)[n - 1].id,
        ),
{
    let snap = incomplete_of(tasks);
    let id = snap[n - 1].id;
    crate::domain::lemma_incomplete_preserves_inv(tasks, next_id);
    crate::domain::lemma_incomplete_mark_commute(tasks, id, ts);
    assert forall|k: int| 0 <= k < snap.len() && k != n - 1 implies #[trigger] snap[k].id
        != id by {
        assert(snap[k].id != snap[n - 1].id);
    }
    crate::domain::lemma_delete_of_at(snap, id, n - 1);
    lemma_incomplete_members(tasks);
    assert(snap.contains(snap[n - 1]));
    let a = choose|a: int| 0 <= a < tasks.len() && tasks[a] == snap[n - 1];
    assert(contains_id(tasks, id));
    lemma_mark_then_listed(tasks, id, ts);
}

/// A task marked complete appears in the completed listing immediately:
/// there is no read-after-write staleness between a completion and the
/// next listing.
pub proof fn lemma_mark_then_listed(tasks: Seq<TaskSpec>, id: int, ts: int)
    requires
        contains_id(tasks, id),
    ensures
        contains_id(completed_of(mark_of(tasks, id, ts)), id),
{
    let m = mark_of(tasks, id, ts);
    let i = choose|i: int| 0 <= i < tasks.len() && #[trigger] tasks[i].id == id;
    assert(m[i].id == id && m[i].complete_date is Some);
    lemma_completed_members(m);
    assert(m.contains(m[i]));
    assert(completed_of(m).contains(m[i]));
    let k = choose|k: int| 0 <= k < completed_of(m).len() && completed_of(m)[k] == m[i];
    assert(completed_of(m)[k].id == id);
}

} // verus!
