//! The command handlers: one function per user command. Handlers resolve
//! the 1-based positions the user types against a snapshot of the
//! incomplete listing taken once per command, mutate the store through
//! [`TaskRepository`], and return data for the presentation layer to
//! render; they never print themselves.

use vstd::prelude::*;

use vstd::string::StringExecFns;

use crate::domain::{
    contains_id, delete_of, incomplete_of, lemma_contains_push, mark_of, store_inv, views_of,
    Task, TaskSpec,
};
use crate::errors::TaskError;
use crate::task_repository::TaskRepository;

verus! {

/// The result of a listing command: the tasks in positional order
/// (position 1 first) and an explicit empty-state flag.
pub struct ListOutcome {
    /// The listed tasks; position `n` is `tasks[n - 1]`.
    pub tasks: Vec<Task>,
    /// Whether the listing was empty.
    pub empty: bool,
}

/// The outcome of one requested item number within a batch command.
pub enum ItemStatus {
    /// The number resolved to a task and the store operation succeeded;
    /// carries the description of the affected task.
    Success(String),
    /// The number does not correspond to any currently-incomplete task.
    NumberOutOfRange,
    /// The store failed while acting on the resolved task.
    StoreFailure,
}

/// One requested item number together with its outcome.
pub struct ItemOutcome {
    /// The number the user typed.
    pub number: u16,
    /// What became of the request for that number.
    pub status: ItemStatus,
}

/// The overall result of a batch command.
pub enum BatchOutcome {
    /// The incomplete listing was empty: nothing to act on, and no store
    /// mutation was performed.
    NothingToDo,
    /// One outcome per requested number, in ascending numeric order after
    /// deduplication.
    Items(Vec<ItemOutcome>),
}

/// The numbers of a sequence of outcomes, in order.
pub open spec fn outcome_numbers(outs: Seq<ItemOutcome>) -> Seq<u16> {
    Seq::new(outs.len(), |i: int| outs[i].number)
}

/// Whether a sequence of numbers is strictly ascending (hence duplicate-free).
pub open spec fn strictly_increasing(s: Seq<u16>) -> bool {
    forall|i: int, j: int| 0 <= i < j < s.len() ==> #[trigger] s[i] < #[trigger] s[j]
}

/// Whether two sequences of numbers hold exactly the same members.
pub open spec fn same_members(a: Seq<u16>, b: Seq<u16>) -> bool {
    forall|x: u16| #[trigger] a.contains(x) <==> #[trigger] b.contains(x)
}

/// What a single outcome must say against the snapshot `snap` of the
/// incomplete listing: out-of-range exactly for the numbers outside
/// `[1, snap.len()]`, and a success carries the description of the task at
/// that position.
pub open spec fn outcome_ok(o: ItemOutcome, snap: Seq<TaskSpec>) -> bool {
    &&& (o.status is NumberOutOfRange <==> !(1 <= o.number as int <= snap.len()))
    &&& (o.status matches ItemStatus::Success(d) ==> d@ == snap[o.number as int - 1].description)
}

/// [`outcome_ok`] for every outcome of a batch.
pub open spec fn outcomes_ok(outs: Seq<ItemOutcome>, snap: Seq<TaskSpec>) -> bool {
    forall|i: int| 0 <= i < outs.len() ==> outcome_ok(#[trigger] outs[i], snap)
}

/// The store contents after a batch of removals: for each successful
/// outcome, in order, the task at that snapshot position is deleted.
pub open spec fn apply_removals(
    tasks: Seq<TaskSpec>,
    snap: Seq<TaskSpec>,
    outs: Seq<ItemOutcome>,
) -> Seq<TaskSpec>
    decreases outs.len(),
{
    if outs.len() == 0 {
        tasks
    } else {
        let rest = apply_removals(tasks, snap, outs.drop_last());
        let o = outs.last();
        if o.status is Success && 1 <= o.number as int <= snap.len() {
            delete_of(rest, snap[o.number as int - 1].id)
        } else {
            rest
        }
    }
}

/// The store contents after a batch of completions at time `ts`: for each
/// successful outcome, in order, the task at that snapshot position is
/// marked complete.
pub open spec fn apply_completions(
    tasks: Seq<TaskSpec>,
    snap: Seq<TaskSpec>,
    outs: Seq<ItemOutcome>,
    ts: int,
) -> Seq<TaskSpec>
    decreases outs.len(),
{
    if outs.len() == 0 {
        tasks
    } else {
        let rest = apply_completions(tasks, snap, outs.drop_last(), ts);
        let o = outs.last();
        if o.status is Success && 1 <= o.number as int <= snap.len() {
            mark_of(rest, snap[o.number as int - 1].id, ts)
        } else {
            rest
        }
    }
}

/// The word with surrounding whitespace removed, as `str::trim` computes
/// it; the result depends on the characters alone.
pub uninterp spec fn trimmed(s: Seq<char>) -> Seq<char>;

/// Relies on str::trim: removes leading and trailing whitespace, a function
/// of the characters alone, named [`trimmed`].
#[verifier::external_body]
fn trim_word(s: &String) -> (r: String)
    ensures
        r@ == trimmed(s@),
{
    s.trim().to_string()
}

/// Relies on chrono's `Utc::now` and `DateTime::timestamp`: the current
/// moment in whole seconds since the Unix epoch. Nothing is promised of the
/// value, since it depends on the machine's clock.
#[verifier::external_body]
fn current_timestamp() -> i64 {
    chrono::Utc::now().timestamp()
}

/// The trimmed views of a list of words, in order.
pub open spec fn trimmed_views(words: Seq<String>) -> Seq<Seq<char>> {
    Seq::new(words.len(), |i: int| trimmed(words[i]@))
}

/// The given parts joined with single spaces.
pub open spec fn space_joined(parts: Seq<Seq<char>>) -> Seq<char>
    decreases parts.len(),
{
    if parts.len() == 0 {
        Seq::empty()
    } else if parts.len() == 1 {
        parts[0]
    } else {
        space_joined(parts.drop_last()) + seq![' '] + parts.last()
    }
}

/// Builds the task description from the user's words: each word trimmed,
/// then all of them joined with single spaces.
fn build_description(words: &Vec<String>) -> (r: String)
    requires
        words@.len() >= 1,
    ensures
        r@ == space_joined(trimmed_views(words@)),
{
    let mut s = trim_word(&words[0]);
    let mut i: usize = 1;
    proof {
        let w = trimmed_views(words@);
        assert(w.take(1).len() == 1);
        assert(w.take(1)[0] == w[0]);
        assert(s@ == space_joined(w.take(1)));
    }
    while i < words.len()
        invariant
            1 <= i <= words@.len(),
            s@ == space_joined(trimmed_views(words@).take(i as int)),
        decreases words@.len() - i,
    {
        let ghost w = trimmed_views(words@);
        s.append(" ");
        let t = trim_word(&words[i]);
        s.append(t.as_str());
        proof {
            reveal_strlit(" ");
            assert((" ")@ =~= seq![' ']);
            assert(w.take(i as int + 1).drop_last() =~= w.take(i as int));
            assert(w.take(i as int + 1).last() == w[i as int]);
            assert(space_joined(w.take(i as int + 1)) == space_joined(w.take(i as int))
                + seq![' '] + w[i as int]);
        }
        i += 1;
    }
    proof {
        assert(trimmed_views(words@).take(words@.len() as int) =~= trimmed_views(words@));
    }
    s
}

/// `remove_duplicates` filters out any duplicate numbers to prevent
/// processing an item number more than once; the result is in ascending
/// order, so that the order of processing is deterministic.
pub fn remove_duplicates(numbers: Vec<u16>) -> (r: Vec<u16>)
    ensures
        strictly_increasing(r@),
        same_members(r@, numbers@),
{
    let mut out: Vec<u16> = Vec::new();
    let mut i: usize = 0;
    while i < numbers.len()
        invariant
            i <= numbers@.len(),
            strictly_increasing(out@),
            forall|x: u16| #[trigger]
                out@.contains(x) <==> numbers@.take(i as int).contains(x),
        decreases numbers@.len() - i,
    {
        let n = numbers[i];
        let ghost pre = out@;
        let mut j: usize = 0;
        while j < out.len() && out[j] < n
            invariant
                j <= out@.len(),
                out@ == pre,
                strictly_increasing(out@),
                forall|k: int| 0 <= k < j ==> #[trigger] out@[k] < n,
            decreases out@.len() - j,
        {
            j += 1;
        }
        if j == out.len() || out[j] > n {
            out.insert(j, n);
            proof {
                assert forall|k1: int, k2: int|
                    0 <= k1 < k2 < out@.len() implies #[trigger] out@[k1] < #[trigger]
                    out@[k2] by {
                    if k1 < j as int {
                        assert(out@[k1] == pre[k1]);
                    }
                    if k1 > j as int {
                        assert(out@[k1] == pre[k1 - 1]);
                    }
                    if k2 < j as int {
                        assert(out@[k2] == pre[k2]);
                    }
                    if k2 > j as int {
                        assert(out@[k2] == pre[k2 - 1]);
                    }
                    assert(k1 == j as int ==> out@[k1] == n);
                    assert(k2 == j as int ==> out@[k2] == n);
                }
                assert forall|x: u16| #[trigger]
                    out@.contains(x) <==> pre.contains(x) || x == n by {
                    if out@.contains(x) {
                        let k = choose|k: int| 0 <= k < out@.len() && out@[k] == x;
                        if k < j as int {
                            assert(pre[k] == x);
                        } else if k > j as int {
                            assert(pre[k - 1] == x);
                        }
                    }
                    if pre.contains(x) {
                        let k = choose|k: int| 0 <= k < pre.len() && pre[k] == x;
                        if k < j as int {
                            assert(out@[k] == x);
                        } else {
                            assert(out@[k + 1] == x);
                        }
                    }
                    if x == n {
                        assert(out@[j as int] == x);
                    }
                }
            }
        } else {
            proof {
                assert(out@[j as int] == n);
                assert(out@.contains(n));
            }
        }
        proof {
            assert(numbers@.take(i as int + 1) =~= numbers@.take(i as int).push(numbers@[i as int]));
            lemma_contains_push(numbers@.take(i as int), numbers@[i as int], n);
            assert forall|x: u16| #[trigger]
                out@.contains(x) <==> numbers@.take(i as int + 1).contains(x) by {
                lemma_contains_push(numbers@.take(i as int), numbers@[i as int], x);
            }
        }
        i += 1;
    }
    proof {
        assert(numbers@.take(numbers@.len() as int) =~= numbers@);
    }
    out
}

/// `add` adds a single task to the task list.
///
/// A list of words is accepted so that the user does not have to surround
/// the task with quotes on the command line; the words, each trimmed, are
/// joined with single spaces into one description. The created task is
/// returned with its freshly assigned identifier, distinct from the
/// identifier of every task the store holds.
pub fn add<R: TaskRepository>(task_repo: &mut R, words: Vec<String>) -> (r: Result<
    Task,
    TaskError,
>)
    requires
        store_inv(old(task_repo).tasks(), old(task_repo).next_id()),
        words@.len() >= 1,
    ensures
        store_inv(final(task_repo).tasks(), final(task_repo).next_id()),
        final(task_repo).next_id() >= old(task_repo).next_id(),
        match r {
            Ok(t) => {
                &&& t@.description == space_joined(trimmed_views(words@))
                &&& t@.id == old(task_repo).next_id()
                &&& t@.complete_date is None
                &&& !contains_id(old(task_repo).tasks(), t@.id)
                &&& final(task_repo).tasks() == old(task_repo).tasks().push(t@)
                &&& final(task_repo).next_id() == old(task_repo).next_id() + 1
            },
            Err(e) => {
                &&& e is AddError
                &&& final(task_repo).tasks() == old(task_repo).tasks()
                &&& final(task_repo).next_id() == old(task_repo).next_id()
            },
        },
{
    let description = build_description(&words);
    let task = Task::new(description);
    let r = task_repo.add(task);
    proof {
        if contains_id(old(task_repo).tasks(), old(task_repo).next_id()) {
            let i = choose|i: int|
                0 <= i < old(task_repo).tasks().len() && #[trigger] old(task_repo).tasks()[i].id
                    == old(task_repo).next_id();
            assert(old(task_repo).tasks()[i].id < old(task_repo).next_id());
        }
    }
    r
}

/// `get_completed_tasks` lists the tasks that carry a completion date, in
/// positional order, with an explicit empty-state flag.
pub fn get_completed_tasks<R: TaskRepository>(task_repo: &mut R) -> (r: Result<
    ListOutcome,
    TaskError,
>)
    requires
        store_inv(old(task_repo).tasks(), old(task_repo).next_id()),
    ensures
        final(task_repo).tasks() == old(task_repo).tasks(),
        final(task_repo).next_id() == old(task_repo).next_id(),
        match r {
            Ok(out) => {
                &&& views_of(out.tasks@) == crate::domain::completed_of(old(task_repo).tasks())
                &&& (out.empty <==> crate::domain::completed_of(old(task_repo).tasks()).len()
                    == 0)
            },
            Err(e) => e is FetchError,
        },
{
    match task_repo.completed_tasks() {
        Ok(v) => {
            let empty = v.len() == 0;
            Ok(ListOutcome { tasks: v, empty })
        },
        Err(e) => Err(e),
    }
}

/// `get_incomplete_tasks` lists the tasks that carry no completion date, in
/// positional order, with an explicit empty-state flag. Position `n` in the
/// result is the number the user types to act on that task.
pub fn get_incomplete_tasks<R: TaskRepository>(task_repo: &mut R) -> (r: Result<
    ListOutcome,
    TaskError,
>)
    requires
        store_inv(old(task_repo).tasks(), old(task_repo).next_id()),
    ensures
        final(task_repo).tasks() == old(task_repo).tasks(),
        final(task_repo).next_id() == old(task_repo).next_id(),
        match r {
            Ok(out) => {
                &&& views_of(out.tasks@) == incomplete_of(old(task_repo).tasks())
                &&& (out.empty <==> incomplete_of(old(task_repo).tasks()).len() == 0)
            },
            Err(e) => e is FetchError,
        },
{
    match task_repo.incomplete_tasks() {
        Ok(v) => {
            let empty = v.len() == 0;
            Ok(ListOutcome { tasks: v, empty })
        },
        Err(e) => Err(e),
    }
}

/// Appending an outcome appends its number.
proof fn lemma_outcome_numbers_push(outs: Seq<ItemOutcome>, o: ItemOutcome)
    ensures
        outcome_numbers(outs.push(o)) == outcome_numbers(outs).push(o.number),
{
    assert(outcome_numbers(outs.push(o)) =~= outcome_numbers(outs).push(o.number));
}

/// Appending a valid outcome keeps a batch valid.
proof fn lemma_outcomes_ok_push(outs: Seq<ItemOutcome>, o: ItemOutcome, snap: Seq<TaskSpec>)
    requires
        outcomes_ok(outs, snap),
        outcome_ok(o, snap),
    ensures
        outcomes_ok(outs.push(o), snap),
{
    assert forall|i: int| 0 <= i < outs.push(o).len() implies outcome_ok(
        #[trigger] outs.push(o)[i],
        snap,
    ) by {
        if i < outs.len() {
            assert(outs.push(o)[i] == outs[i]);
        } else {
            assert(outs.push(o)[i] == o);
        }
    }
}

/// `remove` deletes one or more items from the task list.
///
/// The requested numbers are the positions the user sees in the incomplete
/// listing. They are deduplicated, the incomplete listing is snapshotted
/// once, and every unique number is then resolved and acted on
/// independently, in ascending order: a number outside the snapshot is
/// reported out of range without aborting the batch, and a store failure
/// for one number leaves the others untouched. When there is no incomplete
/// task at all, nothing is mutated and a distinct empty outcome is
/// returned.
pub fn remove<R: TaskRepository>(task_repo: &mut R, numbers: Vec<u16>) -> (r: Result<
    BatchOutcome,
    TaskError,
>)
    requires
        store_inv(old(task_repo).tasks(), old(task_repo).next_id()),
    ensures
        store_inv(final(task_repo).tasks(), final(task_repo).next_id()),
        final(task_repo).next_id() == old(task_repo).next_id(),
        match r {
            Ok(out) => match out {
                BatchOutcome::NothingToDo => {
                    &&& incomplete_of(old(task_repo).tasks()).len() == 0
                    &&& final(task_repo).tasks() == old(task_repo).tasks()
                },
                BatchOutcome::Items(outs) => {
                    &&& incomplete_of(old(task_repo).tasks()).len() > 0
                    &&& strictly_increasing(outcome_numbers(outs@))
                    &&& same_members(outcome_numbers(outs@), numbers@)
                    &&& outcomes_ok(outs@, incomplete_of(old(task_repo).tasks()))
                    &&& final(task_repo).tasks() == apply_removals(
                        old(task_repo).tasks(),
                        incomplete_of(old(task_repo).tasks()),
                        outs@,
                    )
                },
            },
            Err(e) => {
                &&& e is FetchError
                &&& final(task_repo).tasks() == old(task_repo).tasks()
            },
        },
{
    let unique = remove_duplicates(numbers);
    let snapshot = match task_repo.incomplete_tasks() {
        Ok(v) => v,
        Err(e) => {
            return Err(e);
        },
    };
    if snapshot.len() == 0 {
        return Ok(BatchOutcome::NothingToDo);
    }
    let ghost snap = incomplete_of(old(task_repo).tasks());
    let mut outs: Vec<ItemOutcome> = Vec::new();
    let mut i: usize = 0;
    proof {
        assert(outcome_numbers(outs@) =~= unique@.take(0));
    }
    while i < unique.len()
        invariant
            i <= unique@.len(),
            store_inv(old(task_repo).tasks(), old(task_repo).next_id()),
            store_inv(task_repo.tasks(), task_repo.next_id()),
            task_repo.next_id() == old(task_repo).next_id(),
            snap == incomplete_of(old(task_repo).tasks()),
            views_of(snapshot@) == snap,
            snap.len() > 0,
            strictly_increasing(unique@),
            same_members(unique@, numbers@),
            task_repo.tasks() == apply_removals(old(task_repo).tasks(), snap, outs@),
            outcome_numbers(outs@) == unique@.take(i as int),
            outcomes_ok(outs@, snap),
        decreases unique@.len() - i,
    {
        let n = unique[i];
        let ghost pre_outs = outs@;
        if n < 1 || (n as usize) > snapshot.len() {
            let o = ItemOutcome { number: n, status: ItemStatus::NumberOutOfRange };
            proof {
                lemma_outcome_numbers_push(pre_outs, o);
                lemma_outcomes_ok_push(pre_outs, o, snap);
                assert(pre_outs.push(o).drop_last() =~= pre_outs);
            }
            outs.push(o);
        } else {
            let idx = (n as usize) - 1;
            let target_id = snapshot[idx].id;
            let ghost cur = task_repo.tasks();
            match task_repo.delete_task(target_id) {
                Ok(_) => {
                    let d = snapshot[idx].description.clone();
                    let o = ItemOutcome { number: n, status: ItemStatus::Success(d) };
                    proof {
                        assert(snap[idx as int] == snapshot@[idx as int]@);
                        lemma_outcome_numbers_push(pre_outs, o);
                        lemma_outcomes_ok_push(pre_outs, o, snap);
                        assert(pre_outs.push(o).drop_last() =~= pre_outs);
                        assert(task_repo.tasks() == delete_of(cur, snap[n as int - 1].id));
                    }
                    outs.push(o);
                },
                Err(_) => {
                    let o = ItemOutcome { number: n, status: ItemStatus::StoreFailure };
                    proof {
                        lemma_outcome_numbers_push(pre_outs, o);
                        lemma_outcomes_ok_push(pre_outs, o, snap);
                        assert(pre_outs.push(o).drop_last() =~= pre_outs);
                    }
                    outs.push(o);
                },
            }
        }
        proof {
            assert(unique@.take(i as int + 1) =~= unique@.take(i as int).push(unique@[i as int]));
        }
        i += 1;
    }
    proof {
        assert(unique@.take(unique@.len() as int) =~= unique@);
    }
    Ok(BatchOutcome::Items(outs))
}

/// `mark_complete` marks all items in the provided list as finished.
///
/// The requested numbers are the positions the user sees in the incomplete
/// listing. They are deduplicated, the incomplete listing is snapshotted
/// once, the current time is read once, and every unique number is then
/// resolved and acted on independently, in ascending order, exactly as in
/// [`remove`]: out-of-range numbers and store failures are per-item
/// outcomes that never abort the batch, and an empty incomplete listing
/// short-circuits without any store mutation.
pub fn mark_complete<R: TaskRepository>(task_repo: &mut R, numbers: Vec<u16>) -> (r: Result<
    BatchOutcome,
    TaskError,
>)
    requires
        store_inv(old(task_repo).tasks(), old(task_repo).next_id()),
    ensures
        store_inv(final(task_repo).tasks(), final(task_repo).next_id()),
        final(task_repo).next_id() == old(task_repo).next_id(),
        match r {
            Ok(out) => match out {
                BatchOutcome::NothingToDo => {
                    &&& incomplete_of(old(task_repo).tasks()).len() == 0
                    &&& final(task_repo).tasks() == old(task_repo).tasks()
                },
                BatchOutcome::Items(outs) => {
                    &&& incomplete_of(old(task_repo).tasks()).len() > 0
                    &&& strictly_increasing(outcome_numbers(outs@))
                    &&& same_members(outcome_numbers(outs@), numbers@)
                    &&& outcomes_ok(outs@, incomplete_of(old(task_repo).tasks()))
                    &&& exists|ts: int|
                        final(task_repo).tasks() == #[trigger] apply_completions(
                            old(task_repo).tasks(),
                            incomplete_of(old(task_repo).tasks()),
                            outs@,
                            ts,
                        )
                },
            },
            Err(e) => {
                &&& e is FetchError
                &&& final(task_repo).tasks() == old(task_repo).tasks()
            },
        },
{
    let unique = remove_duplicates(numbers);
    let snapshot = match task_repo.incomplete_tasks() {
        Ok(v) => v,
        Err(e) => {
            return Err(e);
        },
    };
    if snapshot.len() == 0 {
        return Ok(BatchOutcome::NothingToDo);
    }
    let now = current_timestamp();
    let ghost snap = incomplete_of(old(task_repo).tasks());
    let mut outs: Vec<ItemOutcome> = Vec::new();
    let mut i: usize = 0;
    proof {
        assert(outcome_numbers(outs@) =~= unique@.take(0));
    }
    while i < unique.len()
        invariant
            i <= unique@.len(),
            store_inv(old(task_repo).tasks(), old(task_repo).next_id()),
            store_inv(task_repo.tasks(), task_repo.next_id()),
            task_repo.next_id() == old(task_repo).next_id(),
            snap == incomplete_of(old(task_repo).tasks()),
            views_of(snapshot@) == snap,
            snap.len() > 0,
            strictly_increasing(unique@),
            same_members(unique@, numbers@),
            task_repo.tasks() == apply_completions(
                old(task_repo).tasks(),
                snap,
                outs@,
                now as int,
            ),
            outcome_numbers(outs@) == unique@.take(i as int),
            outcomes_ok(outs@, snap),
        decreases unique@.len() - i,
    {
        let n = unique[i];
        let ghost pre_outs = outs@;
        if n < 1 || (n as usize) > snapshot.len() {
            let o = ItemOutcome { number: n, status: ItemStatus::NumberOutOfRange };
            proof {
                lemma_outcome_numbers_push(pre_outs, o);
                lemma_outcomes_ok_push(pre_outs, o, snap);
                assert(pre_outs.push(o).drop_last() =~= pre_outs);
            }
            outs.push(o);
        } else {
            let idx = (n as usize) - 1;
            let target_id = snapshot[idx].id;
            let ghost cur = task_repo.tasks();
            match task_repo.mark_complete(target_id, now) {
                Ok(_) => {
                    let d = snapshot[idx].description.clone();
                    let o = ItemOutcome { number: n, status: ItemStatus::Success(d) };
                    proof {
                        assert(snap[idx as int] == snapshot@[idx as int]@);
                        lemma_outcome_numbers_push(pre_outs, o);
                        lemma_outcomes_ok_push(pre_outs, o, snap);
                        assert(pre_outs.push(o).drop_last() =~= pre_outs);
                        assert(task_repo.tasks() == mark_of(cur, snap[n as int - 1].id, now as int));
                    }
                    outs.push(o);
                },
                Err(_) => {
                    let o = ItemOutcome { number: n, status: ItemStatus::StoreFailure };
                    proof {
                        lemma_outcome_numbers_push(pre_outs, o);
                        lemma_outcomes_ok_push(pre_outs, o, snap);
                        assert(pre_outs.push(o).drop_last() =~= pre_outs);
                    }
                    outs.push(o);
                },
            }
        }
        proof {
            assert(unique@.take(i as int + 1) =~= unique@.take(i as int).push(unique@[i as int]));
        }
        i += 1;
    }
    proof {
        assert(unique@.take(unique@.len() as int) =~= unique@);
    }
    Ok(BatchOutcome::Items(outs))
}

/// `clear_completed` deletes every completed task; clearing when no task is
/// completed succeeds and changes nothing.
pub fn clear_completed<R: TaskRepository>(task_repo: &mut R) -> (r: Result<(), TaskError>)
    requires
        store_inv(old(task_repo).tasks(), old(task_repo).next_id()),
    ensures
        store_inv(final(task_repo).tasks(), final(task_repo).next_id()),
        final(task_repo).next_id() == old(task_repo).next_id(),
        match r {
            Ok(_) => final(task_repo).tasks() == incomplete_of(old(task_repo).tasks()),
            Err(e) => {
                &&& e is StoreFailure
                &&& final(task_repo).tasks() == old(task_repo).tasks()
            },
        },
{
    task_repo.clear_completed()
}

} // verus!
