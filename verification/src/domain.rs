//! The application's domain types: the task record itself and the
//! mathematical model of a task store that the contracts are stated over.

use vstd::prelude::*;

verus! {

/// The mathematical value of a stored task: its durable identifier, its
/// description, and the moment of completion in seconds since the Unix
/// epoch (`None` while the task is incomplete).
pub ghost struct TaskSpec {
    /// The durable identifier the store assigned at creation time.
    pub id: int,
    /// The text of the task.
    pub description: Seq<char>,
    /// The completion timestamp, absent while the task is incomplete.
    pub complete_date: Option<int>,
}

/// `Task` represents a basic unit of work that a user wants to accomplish.
#[derive(Debug)]
pub struct Task {
    /// `id` is the database id used to uniquely identify a task.
    pub id: i64,
    /// `description` is the actual task to be completed.
    pub description: String,
    /// `complete_date` is the date and time the item was marked done,
    /// in whole seconds since the Unix epoch (UTC).
    pub complete_date: Option<i64>,
}

impl View for Task {
    type V = TaskSpec;

    open spec fn view(&self) -> TaskSpec {
        TaskSpec {
            id: self.id as int,
            description: self.description@,
            complete_date: match self.complete_date {
                Some(ts) => Some(ts as int),
                None => None,
            },
        }
    }
}

impl Clone for Task {
    fn clone(&self) -> (r: Self)
        ensures
            r == *self,
    {
        Task {
            id: self.id,
            description: self.description.clone(),
            complete_date: self.complete_date,
        }
    }
}

impl Task {
    /// `new` creates a new task from a description. The placeholder id is
    /// replaced by the store when the task is inserted.
    pub fn new(description: String) -> (r: Self)
        ensures
            r@.id == -1,
            r@.description == description@,
            r@.complete_date is None,
    {
        Task { id: -1, description, complete_date: None }
    }

    /// `from_record` creates a new task from an entire database row, the
    /// completion date given in whole seconds since the Unix epoch.
    pub fn from_record(id: i64, description: String, date: Option<i64>) -> (r: Self)
        ensures
            r@.id == id as int,
            r@.description == description@,
            r@.complete_date == (match date {
                Some(ts) => Some(ts as int),
                None => None::<int>,
            }),
    {
        Task { id, description, complete_date: date }
    }
}

/// The contents of a store as the contracts model it: the task models in
/// listing order.
pub type StoreContents = Seq<TaskSpec>;

/// The store model's identifier counter.
pub type StoreCounter = int;

/// The models of a sequence of task records, in the same order.
pub open spec fn views_of(tasks: Seq<Task>) -> Seq<TaskSpec> {
    Seq::new(tasks.len(), |i: int| tasks[i]@)
}

/// Appending a record appends its model.
pub proof fn lemma_views_push(s: Seq<Task>, t: Task)
    ensures
        views_of(s.push(t)) == views_of(s).push(t@),
{
    assert(views_of(s.push(t)) =~= views_of(s).push(t@));
}

/// The tasks of `tasks` that carry a completion date, in listing order.
pub open spec fn completed_of(tasks: Seq<TaskSpec>) -> Seq<TaskSpec>
    decreases tasks.len(),
{
    if tasks.len() == 0 {
        tasks
    } else if tasks.last().complete_date is Some {
        completed_of(tasks.drop_last()).push(tasks.last())
    } else {
        completed_of(tasks.drop_last())
    }
}

/// The tasks of `tasks` that carry no completion date, in listing order.
pub open spec fn incomplete_of(tasks: Seq<TaskSpec>) -> Seq<TaskSpec>
    decreases tasks.len(),
{
    if tasks.len() == 0 {
        tasks
    } else if tasks.last().complete_date is None {
        incomplete_of(tasks.drop_last()).push(tasks.last())
    } else {
        incomplete_of(tasks.drop_last())
    }
}

/// Whether some task in `tasks` carries the identifier `id`.
pub open spec fn contains_id(tasks: Seq<TaskSpec>, id: int) -> bool {
    exists|i: int| 0 <= i < tasks.len() && #[trigger] tasks[i].id == id
}

/// Whether no two tasks of `tasks` share an identifier.
pub open spec fn distinct_ids(tasks: Seq<TaskSpec>) -> bool {
    forall|i: int, j: int|
        0 <= i < j < tasks.len() ==> #[trigger] tasks[i].id != #[trigger] tasks[j].id
}

/// The set of identifiers of the tasks in `tasks`.
pub open spec fn id_set(tasks: Seq<TaskSpec>) -> Set<int> {
    Set::new(|id: int| contains_id(tasks, id))
}

/// Well-formedness of a store's model: identifiers are pairwise distinct,
/// positive, and smaller than the identifier the store will assign next, so
/// that an identifier is never reused, not even after a deletion.
pub open spec fn store_inv(tasks: Seq<TaskSpec>, next_id: int) -> bool {
    &&& distinct_ids(tasks)
    &&& forall|i: int| 0 <= i < tasks.len() ==> 1 <= #[trigger] tasks[i].id < next_id
    &&& 1 <= next_id
}

/// `tasks` with the task carrying `id` marked complete at time `ts`;
/// every other task, and the listing order, are untouched.
pub open spec fn mark_of(tasks: Seq<TaskSpec>, id: int, ts: int) -> Seq<TaskSpec> {
    Seq::new(
        tasks.len(),
        |i: int|
            if tasks[i].id == id {
                TaskSpec { complete_date: Some(ts), ..tasks[i] }
            } else {
                tasks[i]
            },
    )
}

/// `tasks` without the task carrying `id`; the listing order of the
/// remaining tasks is untouched.
pub open spec fn delete_of(tasks: Seq<TaskSpec>, id: int) -> Seq<TaskSpec>
    decreases tasks.len(),
{
    if tasks.len() == 0 {
        tasks
    } else if tasks.last().id == id {
        delete_of(tasks.drop_last(), id)
    } else {
        delete_of(tasks.drop_last(), id).push(tasks.last())
    }
}

/// The task of `tasks` that carries `id`; meaningful only when
/// `contains_id(tasks, id)` holds and identifiers are distinct.
pub open spec fn task_with_id(tasks: Seq<TaskSpec>, id: int) -> TaskSpec {
    tasks[choose|i: int| 0 <= i < tasks.len() && #[trigger] tasks[i].id == id]
}

/// Appending a task extends the completed listing exactly when the task
/// carries a completion date.
pub proof fn lemma_completed_push(s: Seq<TaskSpec>, t: TaskSpec)
    ensures
        completed_of(s.push(t)) == (if t.complete_date is Some {
            completed_of(s).push(t)
        } else {
            completed_of(s)
        }),
{
    assert(s.push(t).drop_last() =~= s);
    assert(s.push(t).last() == t);
}

/// Appending a task extends the incomplete listing exactly when the task
/// carries no completion date.
pub proof fn lemma_incomplete_push(s: Seq<TaskSpec>, t: TaskSpec)
    ensures
        incomplete_of(s.push(t)) == (if t.complete_date is None {
            incomplete_of(s).push(t)
        } else {
            incomplete_of(s)
        }),
{
    assert(s.push(t).drop_last() =~= s);
    assert(s.push(t).last() == t);
}

/// Appending a task commutes with deleting an identifier.
pub proof fn lemma_delete_push(s: Seq<TaskSpec>, t: TaskSpec, id: int)
    ensures
        delete_of(s.push(t), id) == (if t.id == id {
            delete_of(s, id)
        } else {
            delete_of(s, id).push(t)
        }),
{
    assert(s.push(t).drop_last() =~= s);
    assert(s.push(t).last() == t);
}

/// Deleting an identifier commutes with taking the incomplete listing.
pub proof fn lemma_incomplete_delete_commute(s: Seq<TaskSpec>, id: int)
    ensures
        incomplete_of(delete_of(s, id)) == delete_of(incomplete_of(s), id),
    decreases s.len(),
{
    if s.len() > 0 {
        let d = s.drop_last();
        let t = s.last();
        lemma_incomplete_delete_commute(d, id);
        assert(d.push(t) =~= s);
        lemma_delete_push(d, t, id);
        lemma_incomplete_push(d, t);
        lemma_incomplete_push(delete_of(d, id), t);
        lemma_delete_push(incomplete_of(d), t, id);
    }
}

/// Appending a task commutes with marking an identifier complete.
pub proof fn lemma_mark_push(s: Seq<TaskSpec>, t: TaskSpec, id: int, ts: int)
    ensures
        mark_of(s.push(t), id, ts) == (if t.id == id {
            mark_of(s, id, ts).push(TaskSpec { complete_date: Some(ts), ..t })
        } else {
            mark_of(s, id, ts).push(t)
        }),
{
    if t.id == id {
        assert(mark_of(s.push(t), id, ts) =~= mark_of(s, id, ts).push(
            TaskSpec { complete_date: Some(ts), ..t },
        ));
    } else {
        assert(mark_of(s.push(t), id, ts) =~= mark_of(s, id, ts).push(t));
    }
}

/// Marking an identifier complete removes exactly the tasks carrying it
/// from the incomplete listing.
pub proof fn lemma_incomplete_mark_commute(s: Seq<TaskSpec>, id: int, ts: int)
    ensures
        incomplete_of(mark_of(s, id, ts)) == delete_of(incomplete_of(s), id),
    decreases s.len(),
{
    if s.len() == 0 {
        assert(mark_of(s, id, ts) =~= s);
    } else {
        let d = s.drop_last();
        let t = s.last();
        lemma_incomplete_mark_commute(d, id, ts);
        assert(d.push(t) =~= s);
        lemma_mark_push(d, t, id, ts);
        lemma_incomplete_push(d, t);
        lemma_delete_push(incomplete_of(d), t, id);
        if t.id == id {
            lemma_incomplete_push(mark_of(d, id, ts), TaskSpec { complete_date: Some(ts), ..t });
        } else {
            lemma_incomplete_push(mark_of(d, id, ts), t);
        }
    }
}

/// A task is in the completed listing exactly when it is in the store and
/// carries a completion date.
pub proof fn lemma_completed_members(s: Seq<TaskSpec>)
    ensures
        forall|t: TaskSpec| #[trigger]
            completed_of(s).contains(t) <==> s.contains(t) && t.complete_date is Some,
    decreases s.len(),
{
    if s.len() > 0 {
        lemma_completed_members(s.drop_last());
        assert(s.drop_last().push(s.last()) =~= s);
        assert forall|t: TaskSpec| #[trigger]
            completed_of(s).contains(t) <==> s.contains(t) && t.complete_date is Some by {
            lemma_contains_push(completed_of(s.drop_last()), s.last(), t);
            lemma_contains_push(s.drop_last(), s.last(), t);
        }
    }
}

/// A task is in the incomplete listing exactly when it is in the store and
/// carries no completion date.
pub proof fn lemma_incomplete_members(s: Seq<TaskSpec>)
    ensures
        forall|t: TaskSpec| #[trigger]
            incomplete_of(s).contains(t) <==> s.contains(t) && t.complete_date is None,
    decreases s.len(),
{
    if s.len() > 0 {
        lemma_incomplete_members(s.drop_last());
        assert(s.drop_last().push(s.last()) =~= s);
        assert forall|t: TaskSpec| #[trigger]
            incomplete_of(s).contains(t) <==> s.contains(t) && t.complete_date is None by {
            lemma_contains_push(incomplete_of(s.drop_last()), s.last(), t);
            lemma_contains_push(s.drop_last(), s.last(), t);
        }
    }
}

/// Membership in a sequence extended by one element.
pub proof fn lemma_contains_push<A>(s: Seq<A>, last: A, t: A)
    ensures
        s.push(last).contains(t) <==> s.contains(t) || t == last,
{
    if s.contains(t) {
        let i = choose|i: int| 0 <= i < s.len() && s[i] == t;
        assert(s.push(last)[i] == t);
    }
    if t == last {
        assert(s.push(last)[s.len() as int] == t);
    }
    if s.push(last).contains(t) {
        let i = choose|i: int| 0 <= i < s.push(last).len() && s.push(last)[i] == t;
        if i < s.len() {
            assert(s[i] == t);
        }
    }
}

/// Deleting an identifier that one position alone carries removes exactly
/// that position from the listing.
pub proof fn lemma_delete_of_at(s: Seq<TaskSpec>, id: int, j: int)
    requires
        0 <= j < s.len(),
        s[j].id == id,
        forall|k: int| 0 <= k < s.len() && k != j ==> #[trigger] s[k].id != id,
    ensures
        delete_of(s, id) == s.remove(j),
    decreases s.len(),
{
    if j == s.len() - 1 {
        lemma_delete_of_absent(s.drop_last(), id);
        assert(s.remove(j) =~= s.drop_last());
    } else {
        lemma_delete_of_at(s.drop_last(), id, j);
        assert(s.remove(j) =~= s.drop_last().remove(j).push(s.last()));
    }
}

/// Deleting an identifier that no task carries changes nothing.
pub proof fn lemma_delete_of_absent(s: Seq<TaskSpec>, id: int)
    requires
        !contains_id(s, id),
    ensures
        delete_of(s, id) == s,
    decreases s.len(),
{
    if s.len() > 0 {
        assert(!contains_id(s.drop_last(), id)) by {
            assert(forall|i: int|
                0 <= i < s.drop_last().len() ==> #[trigger] s.drop_last()[i].id == s[i].id);
        }
        lemma_delete_of_absent(s.drop_last(), id);
        assert(s[s.len() - 1].id != id);
        assert(s.drop_last().push(s.last()) =~= s);
    }
}

/// The incomplete listing of a well-formed store is itself well-formed:
/// its identifiers stay distinct and below the next identifier.
pub proof fn lemma_incomplete_preserves_inv(s: Seq<TaskSpec>, next_id: int)
    requires
        store_inv(s, next_id),
    ensures
        store_inv(incomplete_of(s), next_id),
    decreases s.len(),
{
    if s.len() > 0 {
        let d = s.drop_last();
        assert(forall|i: int| 0 <= i < d.len() ==> #[trigger] d[i] == s[i]);
        lemma_incomplete_preserves_inv(d, next_id);
        lemma_incomplete_members(d);
        if s.last().complete_date is None {
            let r0 = incomplete_of(d);
            let r = r0.push(s.last());
            assert forall|k1: int, k2: int|
                0 <= k1 < k2 < r.len() implies #[trigger] r[k1].id != #[trigger] r[k2].id by {
                if k2 == r.len() - 1 {
                    assert(r0.contains(r0[k1]));
                    let i = choose|i: int| 0 <= i < d.len() && d[i] == r0[k1];
                    assert(s[i] == r0[k1]);
                    assert(s[i].id != s[s.len() - 1].id);
                }
            }
            assert forall|k: int| 0 <= k < r.len() implies 1 <= #[trigger] r[k].id < next_id by {}
        }
    }
}

} // verus!
