use task_store::error::StoreError;
use task_store::store::{
    delete_task, find_task, load_tasks, load_tasks_by_date, save_task, update_task, TaskStore,
};
use task_store::task::Task;

fn task(key: &str, date: &str, name: &str, priority: i8, completed: bool) -> Task {
    Task {
        key: key.to_string(),
        date: date.to_string(),
        name: name.to_string(),
        body: format!("about {}", name),
        priority,
        completed,
    }
}

fn keys(tasks: &Vec<Task>) -> Vec<String> {
    let mut out = Vec::new();
    for t in tasks {
        out.push(t.key.clone());
    }
    out
}

#[test]
fn new_store_is_empty() {
    let db = TaskStore::new();
    assert_eq!(load_tasks(&db), Vec::<Task>::new());
    assert_eq!(load_tasks_by_date("", &db), Vec::<Task>::new());
    assert_eq!(find_task("a", &db), None);
}

#[test]
fn saved_task_is_loaded_exactly() {
    let mut db = TaskStore::new();
    let t = task("k-1", "2025-02-10", "write letter", 3, false);
    assert_eq!(save_task(t.clone(), &mut db), Ok(()));
    let all = load_tasks(&db);
    assert_eq!(all, vec![t.clone()]);
    assert_eq!(all[0].body, "about write letter");
    assert_eq!(find_task("k-1", &db), Some(t));
}

#[test]
fn saved_task_joins_the_others() {
    let mut db = TaskStore::new();
    let a = task("a", "2025-01-01", "a", 0, false);
    let c = task("c", "2025-01-03", "c", 0, false);
    let b = task("b", "2025-01-02", "b", 0, true);
    assert_eq!(save_task(a.clone(), &mut db), Ok(()));
    assert_eq!(save_task(c.clone(), &mut db), Ok(()));
    assert_eq!(save_task(b.clone(), &mut db), Ok(()));
    let all = load_tasks(&db);
    assert!(all.contains(&b));
    assert_eq!(all, vec![a, b, c]);
}

#[test]
fn second_save_under_one_key_is_a_duplicate() {
    let mut db = TaskStore::new();
    let first = task("same", "2025-02-10", "first", 1, false);
    let second = task("same", "2025-03-11", "second", 2, true);
    assert_eq!(save_task(first.clone(), &mut db), Ok(()));
    assert_eq!(save_task(second, &mut db), Err(StoreError::DuplicateKey));
    assert_eq!(load_tasks(&db), vec![first.clone()]);
    assert_eq!(find_task("same", &db), Some(first));
}

#[test]
fn saving_the_same_record_twice_is_a_duplicate() {
    let mut db = TaskStore::new();
    let t = task("k", "2025-02-10", "t", 1, false);
    assert_eq!(save_task(t.clone(), &mut db), Ok(()));
    assert_eq!(save_task(t.clone(), &mut db), Err(StoreError::DuplicateKey));
    assert_eq!(load_tasks(&db).len(), 1);
}

#[test]
fn load_tasks_follows_the_keys_not_the_saves() {
    let mut db = TaskStore::new();
    for k in ["delta", "alpha", "charlie", "bravo", "echo"] {
        assert_eq!(save_task(task(k, "2025-01-01", k, 0, false), &mut db), Ok(()));
    }
    assert_eq!(keys(&load_tasks(&db)), vec!["alpha", "bravo", "charlie", "delta", "echo"]);
}

#[test]
fn load_tasks_orders_keys_by_their_bytes() {
    let mut db = TaskStore::new();
    for k in ["b", "a", "B", "ab", "", "\u{e9}", "z", "10", "9"] {
        assert_eq!(save_task(task(k, "2025-01-01", "n", 0, false), &mut db), Ok(()));
    }
    assert_eq!(
        keys(&load_tasks(&db)),
        vec!["", "10", "9", "B", "a", "ab", "b", "z", "\u{e9}"]
    );
}

#[test]
fn load_by_date_is_a_range_not_an_exact_match() {
    let mut db = TaskStore::new();
    let before = task("k1", "2025-02-09", "before", 0, false);
    let on = task("k2", "2025-02-10", "on", 0, false);
    let after = task("k3", "2025-02-11", "after", 0, false);
    let much_later = task("k0", "2025-03-01", "later", 0, false);
    let last_year = task("k4", "2024-12-31", "old", 0, false);
    for t in [&before, &on, &after, &much_later, &last_year] {
        assert_eq!(save_task(t.clone(), &mut db), Ok(()));
    }
    let found = load_tasks_by_date("2025-02-10", &db);
    assert_eq!(found, vec![on, after, much_later]);
    assert!(!found.contains(&before));
    assert!(!found.contains(&last_year));
}

#[test]
fn load_by_date_with_a_month_goes_on_past_the_month() {
    let mut db = TaskStore::new();
    let dated =
        [("a", "2025-01-31"), ("b", "2025-02-01"), ("c", "2025-02-28"), ("d", "2025-03-01")];
    for (k, d) in dated {
        assert_eq!(save_task(task(k, d, k, 0, false), &mut db), Ok(()));
    }
    assert_eq!(keys(&load_tasks_by_date("2025-02", &db)), vec!["b", "c", "d"]);
}

#[test]
fn load_by_date_orders_by_date_then_key() {
    let mut db = TaskStore::new();
    for (k, d) in [
        ("z", "2025-02-10"),
        ("a", "2025-02-12"),
        ("m", "2025-02-10"),
        ("b", "2025-02-11"),
        ("c", "2025-02-10"),
        ("y", "2025-02-01"),
    ] {
        assert_eq!(save_task(task(k, d, k, 0, false), &mut db), Ok(()));
    }
    assert_eq!(keys(&load_tasks_by_date("2025-02-10", &db)), vec!["c", "m", "z", "b", "a"]);
}

#[test]
fn load_by_date_from_the_empty_date_lists_everything() {
    let mut db = TaskStore::new();
    for (k, d) in [("a", "2025-02-12"), ("b", ""), ("c", "2025-02-10")] {
        assert_eq!(save_task(task(k, d, k, 0, false), &mut db), Ok(()));
    }
    assert_eq!(keys(&load_tasks_by_date("", &db)), vec!["b", "c", "a"]);
}

#[test]
fn load_by_date_past_every_date_lists_nothing() {
    let mut db = TaskStore::new();
    assert_eq!(save_task(task("a", "2025-02-12", "a", 0, false), &mut db), Ok(()));
    assert_eq!(load_tasks_by_date("2025-02-13", &db), Vec::<Task>::new());
    assert_eq!(load_tasks_by_date("2025-02-12x", &db), Vec::<Task>::new());
    assert_eq!(keys(&load_tasks_by_date("2025-02-12", &db)), vec!["a"]);
}

#[test]
fn update_of_a_missing_key_is_not_found_and_changes_nothing() {
    let mut db = TaskStore::new();
    let a = task("a", "2025-02-10", "a", 1, false);
    assert_eq!(save_task(a.clone(), &mut db), Ok(()));
    let stranger = task("b", "2025-02-11", "b", 2, true);
    assert_eq!(update_task(stranger, &mut db), Err(StoreError::NotFound));
    assert_eq!(load_tasks(&db), vec![a]);
    assert_eq!(find_task("b", &db), None);
}

#[test]
fn update_on_an_empty_store_is_not_found() {
    let mut db = TaskStore::new();
    assert_eq!(update_task(task("a", "d", "n", 0, false), &mut db), Err(StoreError::NotFound));
    assert_eq!(load_tasks(&db), Vec::<Task>::new());
}

#[test]
fn update_replaces_priority_and_completed() {
    let mut db = TaskStore::new();
    let old = task("a", "2025-02-10", "a", 1, false);
    let other = task("b", "2025-02-10", "b", 5, false);
    assert_eq!(save_task(old.clone(), &mut db), Ok(()));
    assert_eq!(save_task(other.clone(), &mut db), Ok(()));
    let mut new = old.clone();
    new.priority = -7;
    new.completed = true;
    assert_eq!(update_task(new.clone(), &mut db), Ok(()));
    let all = load_tasks(&db);
    assert_eq!(all, vec![new.clone(), other]);
    assert_eq!(all[0].priority, -7);
    assert!(all[0].completed);
    assert!(!all.contains(&old));
}

#[test]
fn update_replaces_every_field() {
    let mut db = TaskStore::new();
    let old = task("a", "2025-02-10", "old name", i8::MIN, false);
    assert_eq!(save_task(old.clone(), &mut db), Ok(()));
    let new = Task {
        key: "a".to_string(),
        date: "2026-01-01".to_string(),
        name: "new name".to_string(),
        body: "new body".to_string(),
        priority: i8::MAX,
        completed: true,
    };
    assert_eq!(update_task(new.clone(), &mut db), Ok(()));
    assert_eq!(load_tasks(&db), vec![new.clone()]);
    assert_eq!(find_task("a", &db), Some(new));
}

#[test]
fn update_moves_the_record_in_the_date_index() {
    let mut db = TaskStore::new();
    assert_eq!(save_task(task("a", "2025-02-01", "a", 0, false), &mut db), Ok(()));
    assert_eq!(save_task(task("b", "2025-02-20", "b", 0, false), &mut db), Ok(()));
    assert_eq!(keys(&load_tasks_by_date("2025-02-10", &db)), vec!["b"]);
    assert_eq!(update_task(task("a", "2025-02-25", "a", 0, false), &mut db), Ok(()));
    assert_eq!(keys(&load_tasks_by_date("2025-02-10", &db)), vec!["b", "a"]);
    assert_eq!(update_task(task("b", "2025-01-01", "b", 0, false), &mut db), Ok(()));
    assert_eq!(keys(&load_tasks_by_date("2025-02-10", &db)), vec!["a"]);
}

#[test]
fn delete_removes_the_key_and_a_second_delete_is_not_found() {
    let mut db = TaskStore::new();
    let a = task("a", "2025-02-10", "a", 1, false);
    let b = task("b", "2025-02-11", "b", 2, false);
    assert_eq!(save_task(a.clone(), &mut db), Ok(()));
    assert_eq!(save_task(b.clone(), &mut db), Ok(()));
    assert_eq!(delete_task("a", &mut db), Ok(()));
    let all = load_tasks(&db);
    assert!(!all.contains(&a));
    assert_eq!(all, vec![b.clone()]);
    assert_eq!(find_task("a", &db), None);
    assert_eq!(delete_task("a", &mut db), Err(StoreError::NotFound));
    assert_eq!(load_tasks(&db), vec![b]);
}

#[test]
fn delete_of_a_key_never_stored_is_not_found() {
    let mut db = TaskStore::new();
    assert_eq!(delete_task("a", &mut db), Err(StoreError::NotFound));
    assert_eq!(save_task(task("b", "d", "n", 0, false), &mut db), Ok(()));
    assert_eq!(delete_task("a", &mut db), Err(StoreError::NotFound));
    assert_eq!(delete_task("c", &mut db), Err(StoreError::NotFound));
    assert_eq!(delete_task("", &mut db), Err(StoreError::NotFound));
    assert_eq!(keys(&load_tasks(&db)), vec!["b"]);
}

#[test]
fn a_deleted_key_can_be_saved_again() {
    let mut db = TaskStore::new();
    assert_eq!(save_task(task("a", "d1", "one", 0, false), &mut db), Ok(()));
    assert_eq!(delete_task("a", &mut db), Ok(()));
    let again = task("a", "d2", "two", 1, true);
    assert_eq!(save_task(again.clone(), &mut db), Ok(()));
    assert_eq!(load_tasks(&db), vec![again]);
}

#[test]
fn delete_in_the_middle_keeps_the_order() {
    let mut db = TaskStore::new();
    for k in ["a", "b", "c", "d"] {
        assert_eq!(save_task(task(k, "2025-01-01", k, 0, false), &mut db), Ok(()));
    }
    assert_eq!(delete_task("c", &mut db), Ok(()));
    assert_eq!(keys(&load_tasks(&db)), vec!["a", "b", "d"]);
    assert_eq!(delete_task("a", &mut db), Ok(()));
    assert_eq!(delete_task("d", &mut db), Ok(()));
    assert_eq!(keys(&load_tasks(&db)), vec!["b"]);
}

#[test]
fn find_task_tells_near_keys_apart() {
    let mut db = TaskStore::new();
    let t = task("abc", "2025-01-01", "n", 0, false);
    assert_eq!(save_task(t.clone(), &mut db), Ok(()));
    assert_eq!(find_task("abc", &db), Some(t));
    assert_eq!(find_task("ab", &db), None);
    assert_eq!(find_task("abcd", &db), None);
    assert_eq!(find_task("abd", &db), None);
    assert_eq!(find_task("ABC", &db), None);
}

#[test]
fn task_clone_keeps_every_field() {
    let t = task("k", "2025-02-10", "name", -3, true);
    let c = t.clone();
    assert_eq!(c, t);
    assert_eq!(c.key, "k");
    assert_eq!(c.date, "2025-02-10");
    assert_eq!(c.name, "name");
    assert_eq!(c.body, "about name");
    assert_eq!(c.priority, -3);
    assert!(c.completed);
}
