use task_store::error::StoreError;
use task_store::store::{delete_task, load_tasks, save_task, update_task, TaskStore};
use task_store::task::Task;

fn row(key: &str, date: &str) -> Task {
    Task {
        key: key.to_string(),
        date: date.to_string(),
        name: format!("task {}", key),
        body: String::new(),
        priority: 0,
        completed: false,
    }
}

#[test]
fn restore_of_no_rows_is_the_empty_store() {
    let db = TaskStore::restore(Vec::new()).unwrap();
    assert_eq!(load_tasks(&db), Vec::<Task>::new());
}

#[test]
fn restore_holds_every_row_in_key_order() {
    let rows =
        vec![Ok(row("b", "2025-01-02")), Ok(row("c", "2025-01-01")), Ok(row("a", "2025-01-03"))];
    let db = TaskStore::restore(rows).unwrap();
    assert_eq!(
        load_tasks(&db),
        vec![row("a", "2025-01-03"), row("b", "2025-01-02"), row("c", "2025-01-01")]
    );
}

#[test]
fn restore_gives_the_error_of_a_row_that_was_not_read() {
    let rows = vec![Ok(row("a", "d")), Err(StoreError::TransactionFailure), Ok(row("b", "d"))];
    assert_eq!(TaskStore::restore(rows).err(), Some(StoreError::TransactionFailure));
}

#[test]
fn restore_gives_the_first_error_of_several() {
    let rows = vec![
        Ok(row("a", "d")),
        Err(StoreError::NotFound),
        Err(StoreError::TransactionFailure),
    ];
    assert_eq!(TaskStore::restore(rows).err(), Some(StoreError::NotFound));
    let rows = vec![Err(StoreError::TransactionFailure), Err(StoreError::NotFound)];
    assert_eq!(TaskStore::restore(rows).err(), Some(StoreError::TransactionFailure));
}

#[test]
fn restore_puts_a_row_error_before_a_duplicate_key() {
    let rows = vec![Ok(row("a", "d")), Ok(row("a", "e")), Err(StoreError::TransactionFailure)];
    assert_eq!(TaskStore::restore(rows).err(), Some(StoreError::TransactionFailure));
}

#[test]
fn restore_refuses_a_key_that_comes_twice() {
    let rows = vec![Ok(row("a", "d")), Ok(row("b", "d")), Ok(row("a", "e"))];
    assert_eq!(TaskStore::restore(rows).err(), Some(StoreError::DuplicateKey));
}

#[test]
fn begin_copies_the_store() {
    let mut db = TaskStore::new();
    assert_eq!(save_task(row("a", "d"), &mut db), Ok(()));
    let mut staged = db.begin();
    assert_eq!(load_tasks(&staged), load_tasks(&db));
    assert_eq!(save_task(row("b", "d"), &mut staged), Ok(()));
    assert_eq!(load_tasks(&db), vec![row("a", "d")]);
    assert_eq!(load_tasks(&staged), vec![row("a", "d"), row("b", "d")]);
}

#[test]
fn commit_that_was_durable_takes_the_changes() {
    let mut db = TaskStore::new();
    assert_eq!(save_task(row("a", "d"), &mut db), Ok(()));
    let mut staged = db.begin();
    assert_eq!(save_task(row("b", "d"), &mut staged), Ok(()));
    assert_eq!(update_task(row("a", "e"), &mut staged), Ok(()));
    assert_eq!(db.commit(staged, true), Ok(()));
    assert_eq!(load_tasks(&db), vec![row("a", "e"), row("b", "d")]);
}

#[test]
fn commit_that_was_not_durable_fails_and_changes_nothing() {
    let mut db = TaskStore::new();
    assert_eq!(save_task(row("a", "d"), &mut db), Ok(()));
    let mut staged = db.begin();
    assert_eq!(save_task(row("b", "d"), &mut staged), Ok(()));
    assert_eq!(delete_task("a", &mut staged), Ok(()));
    assert_eq!(db.commit(staged, false), Err(StoreError::TransactionFailure));
    assert_eq!(load_tasks(&db), vec![row("a", "d")]);
}

#[test]
fn a_refused_change_leaves_the_staged_copy_as_it_was() {
    let mut db = TaskStore::new();
    assert_eq!(save_task(row("a", "d"), &mut db), Ok(()));
    let mut staged = db.begin();
    assert_eq!(save_task(row("a", "other"), &mut staged), Err(StoreError::DuplicateKey));
    assert_eq!(update_task(row("x", "d"), &mut staged), Err(StoreError::NotFound));
    assert_eq!(delete_task("x", &mut staged), Err(StoreError::NotFound));
    assert_eq!(db.commit(staged, true), Ok(()));
    assert_eq!(load_tasks(&db), vec![row("a", "d")]);
}

#[test]
fn restore_of_what_a_store_lists_is_that_store() {
    let mut db = TaskStore::new();
    for (k, d) in [("c", "2025-01-01"), ("a", "2025-03-01"), ("b", "2025-02-01")] {
        assert_eq!(save_task(row(k, d), &mut db), Ok(()));
    }
    let listed = load_tasks(&db);
    let mut rows = Vec::new();
    for t in listed.iter() {
        rows.push(Ok(t.clone()));
    }
    let again = TaskStore::restore(rows).unwrap();
    assert_eq!(load_tasks(&again), listed);
}
