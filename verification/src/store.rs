//! An in-memory task store, proved to meet every contract of
//! [`TaskRepository`]. It is the store the crate's own tests run against,
//! and the reference model for any other adapter.

use vstd::prelude::*;

use vstd::string::StringExecFns;

use crate::domain::{
    contains_id, incomplete_of, lemma_delete_of_absent, lemma_delete_of_at,
    lemma_incomplete_preserves_inv, lemma_incomplete_push, lemma_views_push, store_inv,
    task_with_id, views_of, Task, TaskSpec,
};
use crate::errors::TaskError;
use crate::task_repository::TaskRepository;

verus! {

/// A task store that keeps its records in a vector, in insertion order,
/// and assigns identifiers from a counter that only ever grows.
pub struct MemoryRepository {
    /// The live task records, in insertion order.
    pub records: Vec<Task>,
    /// The identifier the next inserted task receives.
    pub counter: i64,
}

impl MemoryRepository {
    /// An empty store whose first task will receive identifier 1.
    pub fn new() -> (r: Self)
        ensures
            r.tasks() == Seq::<TaskSpec>::empty(),
            r.next_id() == 1,
            store_inv(r.tasks(), r.next_id()),
    {
        let r = MemoryRepository { records: Vec::new(), counter: 1 };
        proof {
            assert(r.tasks() =~= Seq::<TaskSpec>::empty());
        }
        r
    }
}

impl TaskRepository for MemoryRepository {
    open spec fn tasks(&self) -> Seq<TaskSpec> {
        views_of(self.records@)
    }

    open spec fn next_id(&self) -> int {
        self.counter as int
    }

    fn completed_tasks(&mut self) -> (r: Result<Vec<Task>, TaskError>) {
        let mut out: Vec<Task> = Vec::new();
        let n = self.records.len();
        let mut i: usize = 0;
        proof {
            assert(views_of(out@) =~= crate::domain::completed_of(self.tasks().take(0)));
        }
        while i < n
            invariant
                n == self.records.len(),
                i <= n,
                views_of(out@) == crate::domain::completed_of(self.tasks().take(i as int)),
            decreases n - i,
        {
            let ghost prefix = self.tasks().take(i as int);
            proof {
                assert(self.tasks().take(i as int + 1) =~= prefix.push(self.tasks()[i as int]));
                crate::domain::lemma_completed_push(prefix, self.tasks()[i as int]);
            }
            let t = &self.records[i];
            if t.complete_date.is_some() {
                let c = t.clone();
                proof {
                    lemma_views_push(out@, c);
                }
                out.push(c);
            }
            i += 1;
        }
        proof {
            assert(self.tasks().take(n as int) =~= self.tasks());
        }
        Ok(out)
    }

    fn incomplete_tasks(&mut self) -> (r: Result<Vec<Task>, TaskError>) {
        let mut out: Vec<Task> = Vec::new();
        let n = self.records.len();
        let mut i: usize = 0;
        proof {
            assert(views_of(out@) =~= incomplete_of(self.tasks().take(0)));
        }
        while i < n
            invariant
                n == self.records.len(),
                i <= n,
                views_of(out@) == incomplete_of(self.tasks().take(i as int)),
            decreases n - i,
        {
            let ghost prefix = self.tasks().take(i as int);
            proof {
                assert(self.tasks().take(i as int + 1) =~= prefix.push(self.tasks()[i as int]));
                lemma_incomplete_push(prefix, self.tasks()[i as int]);
            }
            let t = &self.records[i];
            if t.complete_date.is_none() {
                let c = t.clone();
                proof {
                    lemma_views_push(out@, c);
                }
                out.push(c);
            }
            i += 1;
        }
        proof {
            assert(self.tasks().take(n as int) =~= self.tasks());
        }
        Ok(out)
    }

    fn add(&mut self, task: Task) -> (r: Result<Task, TaskError>) {
        if self.counter == i64::MAX {
            return Err(TaskError::AddError(String::from_str("no task identifier is left")));
        }
        let stored = Task {
            id: self.counter,
            description: task.description,
            complete_date: task.complete_date,
        };
        let returned = stored.clone();
        proof {
            lemma_views_push(self.records@, stored);
        }
        self.records.push(stored);
        self.counter = self.counter + 1;
        proof {
            let pre = old(self).tasks();
            let post = self.tasks();
            assert(post == pre.push(stored@));
            assert forall|k1: int, k2: int|
                0 <= k1 < k2 < post.len() implies #[trigger] post[k1].id != #[trigger]
                post[k2].id by {
                if k2 == post.len() - 1 {
                    assert(pre[k1].id < old(self).counter as int);
                }
            }
        }
        Ok(returned)
    }

    fn mark_complete(&mut self, task_id: i64, completed_at: i64) -> (r: Result<Task, TaskError>) {
        let n = self.records.len();
        let mut i: usize = 0;
        while i < n
            invariant
                n == self.records.len(),
                i <= n,
                self.records@ == old(self).records@,
                self.counter == old(self).counter,
                store_inv(old(self).tasks(), old(self).next_id()),
                forall|k: int| 0 <= k < i ==> #[trigger] old(self).tasks()[k].id != task_id as int,
            decreases n - i,
        {
            if self.records[i].id == task_id {
                let updated = Task {
                    id: task_id,
                    description: self.records[i].description.clone(),
                    complete_date: Some(completed_at),
                };
                let returned = updated.clone();
                let ghost pre = self.tasks();
                self.records[i] = updated;
                proof {
                    let m = crate::domain::mark_of(pre, task_id as int, completed_at as int);
                    assert(self.records@ == old(self).records@.update(i as int, updated));
                    assert(pre == old(self).tasks());
                    assert(pre[i as int].id == task_id as int);
                    assert(contains_id(pre, task_id as int));
                    assert forall|k: int| 0 <= k < m.len() implies self.tasks()[k] == m[k] by {
                        if k != i as int {
                            assert(pre[k].id != pre[i as int].id);
                            assert(self.tasks()[k] == pre[k]);
                        }
                    }
                    assert(self.tasks() =~= m);
                    let w = choose|w: int|
                        0 <= w < pre.len() && #[trigger] pre[w].id == task_id as int;
                    if w != i as int {
                        assert(pre[w].id != pre[i as int].id);
                    }
                    assert(task_with_id(pre, task_id as int) == pre[i as int]);
                }
                return Ok(returned);
            }
            i += 1;
        }
        proof {
            assert(!contains_id(self.tasks(), task_id as int));
        }
        Err(TaskError::NotFound)
    }

    fn delete_task(&mut self, task_id: i64) -> (r: Result<(), TaskError>) {
        let n = self.records.len();
        let mut i: usize = 0;
        while i < n
            invariant
                n == self.records.len(),
                i <= n,
                self.records@ == old(self).records@,
                self.counter == old(self).counter,
                store_inv(old(self).tasks(), old(self).next_id()),
                forall|k: int| 0 <= k < i ==> #[trigger] old(self).tasks()[k].id != task_id as int,
            decreases n - i,
        {
            if self.records[i].id == task_id {
                let ghost pre = self.tasks();
                self.records.remove(i);
                proof {
                    assert(pre[i as int].id == task_id as int);
                    assert forall|k: int|
                        0 <= k < pre.len() && k != i as int implies #[trigger] pre[k].id
                        != task_id as int by {
                        assert(pre[k].id != pre[i as int].id);
                    }
                    lemma_delete_of_at(pre, task_id as int, i as int);
                    assert(self.tasks() =~= pre.remove(i as int));
                    let post = pre.remove(i as int);
                    assert forall|k1: int, k2: int|
                        0 <= k1 < k2 < post.len() implies #[trigger] post[k1].id != #[trigger]
                        post[k2].id by {
                        let a = if k1 < i as int { k1 } else { k1 + 1 };
                        let b = if k2 < i as int { k2 } else { k2 + 1 };
                        assert(post[k1] == pre[a]);
                        assert(post[k2] == pre[b]);
                        assert(pre[a].id != pre[b].id);
                    }
                    assert forall|k: int|
                        0 <= k < post.len() implies 1 <= (#[trigger] post[k].id)
                        < self.next_id() by {
                        assert(post[k] == (if k < i as int {
                            pre[k]
                        } else {
                            pre[k + 1]
                        }));
                    }
                }
                return Ok(());
            }
            i += 1;
        }
        proof {
            assert(!contains_id(self.tasks(), task_id as int));
            lemma_delete_of_absent(self.tasks(), task_id as int);
        }
        Ok(())
    }

    fn clear_completed(&mut self) -> (r: Result<(), TaskError>) {
        let mut kept: Vec<Task> = Vec::new();
        let n = self.records.len();
        let mut i: usize = 0;
        proof {
            assert(views_of(kept@) =~= incomplete_of(self.tasks().take(0)));
        }
        while i < n
            invariant
                n == self.records.len(),
                i <= n,
                self.records@ == old(self).records@,
                self.counter == old(self).counter,
                views_of(kept@) == incomplete_of(self.tasks().take(i as int)),
            decreases n - i,
        {
            let ghost prefix = self.tasks().take(i as int);
            proof {
                assert(self.tasks().take(i as int + 1) =~= prefix.push(self.tasks()[i as int]));
                lemma_incomplete_push(prefix, self.tasks()[i as int]);
            }
            let t = &self.records[i];
            if t.complete_date.is_none() {
                let c = t.clone();
                proof {
                    lemma_views_push(kept@, c);
                }
                kept.push(c);
            }
            i += 1;
        }
        proof {
            assert(self.tasks().take(n as int) =~= self.tasks());
        }
        self.records = kept;
        proof {
            lemma_incomplete_preserves_inv(old(self).tasks(), old(self).counter as int);
        }
        Ok(())
    }
}

} // verus!
