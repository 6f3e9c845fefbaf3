//! End-to-end tests of the command handlers against the in-memory store.

use tasklist::domain::Task;
use tasklist::errors::TaskError;
use tasklist::handlers::{
    add, clear_completed, get_completed_tasks, get_incomplete_tasks, mark_complete, remove,
    remove_duplicates, BatchOutcome, ItemStatus,
};
use tasklist::store::MemoryRepository;
use tasklist::task_repository::TaskRepository;

fn words(ws: &[&str]) -> Vec<String> {
    ws.iter().map(|w| w.to_string()).collect()
}

fn store_with(descriptions: &[&str]) -> MemoryRepository {
    let mut repo = MemoryRepository::new();
    for d in descriptions {
        add(&mut repo, words(&[d])).expect("add should succeed");
    }
    repo
}

#[test]
fn add_joins_trimmed_words_and_assigns_fresh_ids() {
    let mut repo = MemoryRepository::new();
    let first = add(&mut repo, words(&[" walk ", "the", "dog"])).expect("add should succeed");
    assert_eq!(first.description, "walk the dog");
    assert_eq!(first.id, 1);
    assert!(first.complete_date.is_none());

    let second = add(&mut repo, words(&["feed the cat"])).expect("add should succeed");
    assert_eq!(second.description, "feed the cat");
    assert_ne!(second.id, first.id);
    assert_eq!(second.id, 2);
}

#[test]
fn add_after_remove_never_reuses_an_id() {
    let mut repo = store_with(&["a", "b"]);
    remove(&mut repo, vec![1, 2]).expect("remove should succeed");
    let t = add(&mut repo, words(&["c"])).expect("add should succeed");
    assert_eq!(t.id, 3);
}

#[test]
fn listing_twice_without_mutation_is_identical() {
    let mut repo = store_with(&["a", "b", "c"]);
    let first = get_incomplete_tasks(&mut repo).expect("listing should succeed");
    let second = get_incomplete_tasks(&mut repo).expect("listing should succeed");
    let ids1: Vec<i64> = first.tasks.iter().map(|t| t.id).collect();
    let ids2: Vec<i64> = second.tasks.iter().map(|t| t.id).collect();
    let ds1: Vec<String> = first.tasks.iter().map(|t| t.description.clone()).collect();
    let ds2: Vec<String> = second.tasks.iter().map(|t| t.description.clone()).collect();
    assert_eq!(ids1, ids2);
    assert_eq!(ds1, ds2);
    assert_eq!(first.empty, second.empty);
}

#[test]
fn completed_and_incomplete_listings_partition_the_ids() {
    let mut repo = store_with(&["a", "b", "c"]);
    mark_complete(&mut repo, vec![2]).expect("completion should succeed");

    let completed = get_completed_tasks(&mut repo).expect("listing should succeed");
    let incomplete = get_incomplete_tasks(&mut repo).expect("listing should succeed");
    let mut ids: Vec<i64> = completed.tasks.iter().map(|t| t.id).collect();
    for t in &incomplete.tasks {
        assert!(!ids.contains(&t.id), "listings must be disjoint");
        ids.push(t.id);
    }
    ids.sort();
    assert_eq!(ids, vec![1, 2, 3]);
}

#[test]
fn remove_second_position_deletes_exactly_that_task() {
    let mut repo = store_with(&["a", "b", "c"]);
    let outcome = remove(&mut repo, vec![2]).expect("remove should succeed");
    match outcome {
        BatchOutcome::Items(outs) => {
            assert_eq!(outs.len(), 1);
            assert_eq!(outs[0].number, 2);
            match &outs[0].status {
                ItemStatus::Success(d) => assert_eq!(d, "b"),
                _ => panic!("expected a success for position 2"),
            }
        }
        BatchOutcome::NothingToDo => panic!("the listing was not empty"),
    }
    let left = get_incomplete_tasks(&mut repo).expect("listing should succeed");
    let ids: Vec<i64> = left.tasks.iter().map(|t| t.id).collect();
    assert_eq!(ids, vec![1, 3]);
    let ds: Vec<&str> = left.tasks.iter().map(|t| t.description.as_str()).collect();
    assert_eq!(ds, vec!["a", "c"]);
}

#[test]
fn complete_batch_tolerates_an_out_of_range_number() {
    let mut repo = store_with(&["a", "b", "c"]);
    let outcome = mark_complete(&mut repo, vec![1, 99, 1]).expect("batch should succeed");
    match outcome {
        BatchOutcome::Items(outs) => {
            assert_eq!(outs.len(), 2, "1 and 99 after deduplication");
            assert_eq!(outs[0].number, 1);
            match &outs[0].status {
                ItemStatus::Success(d) => assert_eq!(d, "a"),
                _ => panic!("expected a success for position 1"),
            }
            assert_eq!(outs[1].number, 99);
            assert!(matches!(outs[1].status, ItemStatus::NumberOutOfRange));
        }
        BatchOutcome::NothingToDo => panic!("the listing was not empty"),
    }
    let incomplete = get_incomplete_tasks(&mut repo).expect("listing should succeed");
    let ds: Vec<&str> = incomplete.tasks.iter().map(|t| t.description.as_str()).collect();
    assert_eq!(ds, vec!["b", "c"], "b and c stay incomplete and untouched");
    let completed = get_completed_tasks(&mut repo).expect("listing should succeed");
    assert_eq!(completed.tasks.len(), 1);
    assert_eq!(completed.tasks[0].description, "a");
    assert!(completed.tasks[0].complete_date.is_some());
}

#[test]
fn remove_on_empty_listing_short_circuits() {
    let mut repo = MemoryRepository::new();
    let outcome = remove(&mut repo, vec![1]).expect("remove should succeed");
    assert!(matches!(outcome, BatchOutcome::NothingToDo));
    assert!(repo.records.is_empty(), "no store mutation may happen");
    assert_eq!(repo.counter, 1);
}

#[test]
fn complete_on_empty_listing_short_circuits() {
    let mut repo = MemoryRepository::new();
    let outcome = mark_complete(&mut repo, vec![1]).expect("completion should succeed");
    assert!(matches!(outcome, BatchOutcome::NothingToDo));
    assert!(repo.records.is_empty(), "no store mutation may happen");
}

#[test]
fn clear_completed_removes_exactly_the_completed_records() {
    let mut repo = store_with(&["a", "b", "c"]);
    mark_complete(&mut repo, vec![1]).expect("completion should succeed");
    clear_completed(&mut repo).expect("clearing should succeed");

    let completed = get_completed_tasks(&mut repo).expect("listing should succeed");
    assert!(completed.tasks.is_empty());
    assert!(completed.empty);
    let incomplete = get_incomplete_tasks(&mut repo).expect("listing should succeed");
    let ds: Vec<&str> = incomplete.tasks.iter().map(|t| t.description.as_str()).collect();
    assert_eq!(ds, vec!["b", "c"]);
}

#[test]
fn clear_completed_with_nothing_completed_succeeds() {
    let mut repo = store_with(&["a"]);
    clear_completed(&mut repo).expect("clearing should succeed");
    let incomplete = get_incomplete_tasks(&mut repo).expect("listing should succeed");
    assert_eq!(incomplete.tasks.len(), 1);
}

#[test]
fn marked_task_appears_in_the_next_completed_listing() {
    let mut repo = store_with(&["a", "b"]);
    mark_complete(&mut repo, vec![2]).expect("completion should succeed");
    let completed = get_completed_tasks(&mut repo).expect("listing should succeed");
    assert!(completed.tasks.iter().any(|t| t.id == 2 && t.description == "b"));
}

#[test]
fn listings_report_the_empty_state() {
    let mut repo = MemoryRepository::new();
    let incomplete = get_incomplete_tasks(&mut repo).expect("listing should succeed");
    assert!(incomplete.empty);
    assert!(incomplete.tasks.is_empty());
    let completed = get_completed_tasks(&mut repo).expect("listing should succeed");
    assert!(completed.empty);

    add(&mut repo, words(&["a"])).expect("add should succeed");
    let incomplete = get_incomplete_tasks(&mut repo).expect("listing should succeed");
    assert!(!incomplete.empty);
}

#[test]
fn remove_duplicates_sorts_ascending_and_drops_duplicates() {
    assert_eq!(remove_duplicates(vec![3, 1, 2, 3, 1]), vec![1, 2, 3]);
    assert_eq!(remove_duplicates(vec![5]), vec![5]);
    assert_eq!(remove_duplicates(vec![]), Vec::<u16>::new());
    assert_eq!(remove_duplicates(vec![7, 7, 7]), vec![7]);
}

#[test]
fn zero_is_reported_out_of_range() {
    let mut repo = store_with(&["a"]);
    let outcome = remove(&mut repo, vec![0]).expect("remove should succeed");
    match outcome {
        BatchOutcome::Items(outs) => {
            assert_eq!(outs.len(), 1);
            assert_eq!(outs[0].number, 0);
            assert!(matches!(outs[0].status, ItemStatus::NumberOutOfRange));
        }
        BatchOutcome::NothingToDo => panic!("the listing was not empty"),
    }
    assert_eq!(repo.records.len(), 1, "nothing may be deleted");
}

#[test]
fn marking_an_absent_id_is_not_found() {
    let mut repo = MemoryRepository::new();
    let r = repo.mark_complete(42, 1_700_000_000);
    assert!(matches!(r, Err(TaskError::NotFound)));
}

#[test]
fn deleting_an_absent_id_is_a_no_op() {
    let mut repo = store_with(&["a"]);
    repo.delete_task(42).expect("deleting an absent id succeeds");
    assert_eq!(repo.records.len(), 1);
}

#[test]
fn add_fails_once_the_identifiers_are_exhausted() {
    let mut repo = MemoryRepository { records: Vec::new(), counter: i64::MAX };
    let r = repo.add(Task::new("a".to_string()));
    assert!(matches!(r, Err(TaskError::AddError(_))));
    assert!(repo.records.is_empty());
}

#[test]
fn task_constructors_fill_the_record() {
    let t = Task::new("write a letter".to_string());
    assert_eq!(t.id, -1);
    assert_eq!(t.description, "write a letter");
    assert!(t.complete_date.is_none());

    let r = Task::from_record(9, "sent".to_string(), Some(1_700_000_000));
    assert_eq!(r.id, 9);
    assert_eq!(r.description, "sent");
    assert_eq!(r.complete_date, Some(1_700_000_000));
}

#[test]
fn mark_complete_records_a_completion_date() {
    let mut repo = store_with(&["a"]);
    let before = get_completed_tasks(&mut repo).expect("listing should succeed");
    assert!(before.tasks.is_empty());
    repo.mark_complete(1, 1_700_000_000).expect("completion should succeed");
    let after = get_completed_tasks(&mut repo).expect("listing should succeed");
    assert_eq!(after.tasks.len(), 1);
    assert_eq!(after.tasks[0].complete_date, Some(1_700_000_000));
}
