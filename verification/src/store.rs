//! The store itself: records held in the order of their keys, and the
//! operations on them.

use itertools::Itertools;
use vstd::prelude::*;
use crate::error::StoreError;
use crate::model::{
    after_delete, after_save, after_update, collected, commit_outcome, dates_increase,
    delete_outcome, index_lt, keys_increase, listed_by_key, listed_from_date, restored,
    save_outcome, saved_all, update_outcome, valid_table,
};
use crate::order::{
    lemma_str_lt_asymmetric, lemma_str_lt_total, lemma_str_lt_transitive, precedes, str_lt,
};
use crate::rows::{
    lemma_absent, lemma_insert_lists, lemma_remove_lists, lemma_replace_lists,
    lemma_select_none_more, lemma_select_one_more, lemma_selected_is_listed, lemma_table_of,
    lemma_table_of_listing, selected_from, table_of,
};
use crate::task::{views, Task, TaskView};

verus! {

/// The task records of an application, each under its own key.
pub struct TaskStore {
    rows: Vec<Task>,
}

impl View for TaskStore {
    type V = Map<Seq<char>, TaskView>;

    closed spec fn view(&self) -> Map<Seq<char>, TaskView> {
        table_of(views(self.rows@))
    }
}

impl TaskStore {
    #[verifier::type_invariant]
    spec fn ordered(&self) -> bool {
        keys_increase(views(self.rows@))
    }

    /// A store without records.
    pub fn new() -> (db: TaskStore)
        ensures
            db@ == Map::<Seq<char>, TaskView>::empty(),
            valid_table(db@),
    {
        let db = TaskStore { rows: Vec::new() };
        proof {
            lemma_table_of(views(db.rows@));
        }
        db
    }

    /// The store that rows read from durable storage stand for. A row that
    /// was not read gives its error, the first such row's; a key that comes
    /// twice is refused.
    pub fn restore(rows: Vec<Result<Task, StoreError>>) -> (opened: Result<TaskStore, StoreError>)
        ensures
            match opened {
                Ok(db) => restored(rows@) == Ok::<Map<Seq<char>, TaskView>, StoreError>(db@)
                    && valid_table(db@),
                Err(e) => restored(rows@) == Err::<Map<Seq<char>, TaskView>, StoreError>(e),
            },
    {
        let tasks = match collect_rows(rows) {
            Ok(tasks) => tasks,
            Err(e) => {
                return Err(e);
            },
        };
        let ghost list = views(tasks@);
        let mut db = TaskStore::new();
        let mut i: usize = 0;
        proof {
            assert(list.skip(0) =~= list);
        }
        while i < tasks.len()
            invariant
                i <= tasks.len(),
                list == views(tasks@),
                valid_table(db@),
                restored(rows@) == saved_all(db@, list.skip(i as int)),
            decreases tasks.len() - i,
        {
            proof {
                assert(list.skip(i as int)[0] == tasks[i as int]@);
                assert(list.skip(i as int).drop_first() =~= list.skip(i as int + 1));
            }
            match save_task(tasks[i].clone(), &mut db) {
                Ok(_) => {},
                Err(e) => {
                    return Err(e);
                },
            }
            i = i + 1;
        }
        Ok(db)
    }

    /// A copy of the store, on which a transaction prepares its changes.
    pub fn begin(&self) -> (staged: TaskStore)
        ensures
            staged@ == self@,
            valid_table(staged@),
    {
        let rows = load_tasks(self);
        proof {
            lemma_table_of_listing(views(rows@), self@);
            lemma_table_of(views(rows@));
        }
        TaskStore { rows }
    }

    /// Ends a transaction. Where its changes reached durable storage the
    /// store becomes `staged`; where they did not, the store stays as it was
    /// and the transaction has failed.
    pub fn commit(&mut self, staged: TaskStore, durable: bool) -> (outcome: Result<(), StoreError>)
        ensures
            outcome == commit_outcome(durable),
            final(self)@ == (if durable {
                staged@
            } else {
                old(self)@
            }),
            valid_table(final(self)@),
    {
        proof {
            use_type_invariant(&*self);
            use_type_invariant(&staged);
            lemma_table_of(views(self.rows@));
            lemma_table_of(views(staged.rows@));
        }
        if durable {
            *self = staged;
            Ok(())
        } else {
            Err(StoreError::TransactionFailure)
        }
    }
}

/// Collects rows with `Itertools::try_collect`, which is `collect` into a
/// `Result`: the tasks of all rows in their order where every row is `Ok`,
/// else the error of the first row that is `Err`.
#[verifier::external_body]
fn collect_rows(rows: Vec<Result<Task, StoreError>>) -> (out: Result<Vec<Task>, StoreError>)
    ensures
        match out {
            Ok(tasks) => collected(rows@) == Ok::<Seq<Task>, StoreError>(tasks@),
            Err(e) => collected(rows@) == Err::<Seq<Task>, StoreError>(e),
        },
{
    Itertools::try_collect(rows.into_iter())
}

/// Moves the rows out of the store, which is empty until they are put back.
/// A change to the rows is made on them while they are out, so that the
/// store holds rows in the order of their keys at every moment.
fn take_rows(db: &mut TaskStore) -> (rows: Vec<Task>)
    ensures
        rows == old(db).rows,
        final(db).rows@.len() == 0,
{
    let mut rows: Vec<Task> = Vec::new();
    core::mem::swap(&mut rows, &mut db.rows);
    rows
}

/// Where `key` stands among `rows`: the number of rows before it, and
/// whether the row at that place has the key.
fn locate(rows: &Vec<Task>, key: &str) -> (at: (usize, bool))
    requires
        keys_increase(views(rows@)),
    ensures
        at.0 <= rows.len(),
        forall|j: int| 0 <= j < at.0 ==> str_lt(#[trigger] rows[j].key@, key@),
        at.1 ==> at.0 < rows.len() && rows[at.0 as int].key@ == key@,
        !at.1 ==> forall|j: int| at.0 <= j < rows.len() ==> str_lt(key@, #[trigger] rows[j].key@),
{
    let ghost list = views(rows@);
    let mut low: usize = 0;
    let mut high: usize = rows.len();
    while low < high
        invariant
            low <= high <= rows.len(),
            list == views(rows@),
            keys_increase(list),
            forall|j: int| 0 <= j < low ==> str_lt(#[trigger] rows[j].key@, key@),
            forall|j: int| high <= j < rows.len() ==> !str_lt(#[trigger] rows[j].key@, key@),
        decreases high - low,
    {
        let mid = low + (high - low) / 2;
        if precedes(rows[mid].key.as_str(), key) {
            proof {
                assert forall|j: int| 0 <= j < mid + 1 implies str_lt(
                    #[trigger] rows[j].key@,
                    key@,
                ) by {
                    if j < mid {
                        assert(str_lt(list[j].key, list[mid as int].key));
                        lemma_str_lt_transitive(rows[j].key@, rows[mid as int].key@, key@);
                    }
                }
            }
            low = mid + 1;
        } else {
            proof {
                assert forall|j: int| mid <= j < rows.len() implies !str_lt(
                    #[trigger] rows[j].key@,
                    key@,
                ) by {
                    if mid < j && str_lt(rows[j].key@, key@) {
                        assert(str_lt(list[mid as int].key, list[j].key));
                        lemma_str_lt_transitive(rows[mid as int].key@, rows[j].key@, key@);
                    }
                }
            }
            high = mid;
        }
    }
    if low < rows.len() && !precedes(key, rows[low].key.as_str()) {
        proof {
            if rows[low as int].key@ != key@ {
                lemma_str_lt_total(rows[low as int].key@, key@);
            }
        }
        (low, true)
    } else {
        proof {
            assert forall|j: int| low <= j < rows.len() implies str_lt(
                key@,
                #[trigger] rows[j].key@,
            ) by {
                if low < j {
                    assert(str_lt(list[low as int].key, list[j].key));
                    lemma_str_lt_transitive(key@, rows[low as int].key@, rows[j].key@);
                }
            }
        }
        (low, false)
    }
}

/// The record stored under `key`, if there is one.
pub fn find_task(key: &str, db: &TaskStore) -> (found: Option<Task>)
    ensures
        match found {
            Some(task) => db@.contains_key(key@) && db@[key@] == task@,
            None => !db@.contains_key(key@),
        },
{
    proof {
        use_type_invariant(db);
        lemma_table_of(views(db.rows@));
    }
    let (i, found) = locate(&db.rows, key);
    if found {
        proof {
            assert(views(db.rows@)[i as int] == db.rows[i as int]@);
        }
        Some(db.rows[i].clone())
    } else {
        proof {
            let list = views(db.rows@);
            if db@.contains_key(key@) {
                let j = choose|j: int| 0 <= j < list.len() && (#[trigger] list[j]).key == key@;
                assert(list[j] == db.rows[j]@);
                if j < i {
                    lemma_str_lt_asymmetric(db.rows[j].key@, key@);
                } else {
                    lemma_str_lt_asymmetric(key@, db.rows[j].key@);
                }
            }
        }
        None
    }
}

/// Stores `task` as a new record. A key that is already taken is refused and
/// the store stays as it was.
pub fn save_task(task: Task, db: &mut TaskStore) -> (outcome: Result<(), StoreError>)
    ensures
        outcome == save_outcome(old(db)@, task@),
        final(db)@ == after_save(old(db)@, task@),
        valid_table(final(db)@),
{
    proof {
        use_type_invariant(&*db);
        lemma_table_of(views(db.rows@));
    }
    let (i, found) = locate(&db.rows, task.key.as_str());
    let ghost before = views(db.rows@);
    if found {
        proof {
            assert(before[i as int] == db.rows[i as int]@);
        }
        Err(StoreError::DuplicateKey)
    } else {
        let ghost after = before.insert(i as int, task@);
        proof {
            assert(views(db.rows@.insert(i as int, task)) =~= after);
            lemma_insert_lists(before, i as int, task@);
            lemma_table_of_listing(after, db@.insert(task@.key, task@));
            lemma_table_of(after);
        }
        let mut rows = take_rows(db);
        rows.insert(i, task);
        db.rows = rows;
        Ok(())
    }
}

/// Replaces the record that has the key of `task` by `task`, whole. A key
/// that is not stored is refused and the store stays as it was.
pub fn update_task(task: Task, db: &mut TaskStore) -> (outcome: Result<(), StoreError>)
    ensures
        outcome == update_outcome(old(db)@, task@),
        final(db)@ == after_update(old(db)@, task@),
        valid_table(final(db)@),
{
    proof {
        use_type_invariant(&*db);
        lemma_table_of(views(db.rows@));
    }
    let (i, found) = locate(&db.rows, task.key.as_str());
    let ghost before = views(db.rows@);
    if found {
        let ghost after = before.update(i as int, task@);
        proof {
            assert(before[i as int] == db.rows[i as int]@);
            assert(views(db.rows@.update(i as int, task)) =~= after);
            lemma_replace_lists(before, i as int, task@);
            lemma_table_of_listing(after, db@.insert(task@.key, task@));
            lemma_table_of(after);
        }
        let mut rows = take_rows(db);
        rows[i] = task;
        db.rows = rows;
        Ok(())
    } else {
        proof {
            lemma_absent(before, i as int, task@.key);
        }
        Err(StoreError::NotFound)
    }
}

/// Removes the record stored under `task_id`. A key that is not stored is
/// refused and the store stays as it was.
pub fn delete_task(task_id: &str, db: &mut TaskStore) -> (outcome: Result<(), StoreError>)
    ensures
        outcome == delete_outcome(old(db)@, task_id@),
        final(db)@ == after_delete(old(db)@, task_id@),
        valid_table(final(db)@),
{
    proof {
        use_type_invariant(&*db);
        lemma_table_of(views(db.rows@));
    }
    let (i, found) = locate(&db.rows, task_id);
    let ghost before = views(db.rows@);
    if found {
        let ghost after = before.remove(i as int);
        proof {
            assert(before[i as int] == db.rows[i as int]@);
            assert(views(db.rows@.remove(i as int)) =~= after);
            lemma_remove_lists(before, i as int);
            lemma_table_of_listing(after, db@.remove(task_id@));
            lemma_table_of(after);
        }
        let mut rows = take_rows(db);
        rows.remove(i);
        db.rows = rows;
        Ok(())
    } else {
        proof {
            lemma_absent(before, i as int, task_id@);
            assert(db@.remove(task_id@) =~= db@);
        }
        Err(StoreError::NotFound)
    }
}

/// Every record, in the order of the keys.
pub fn load_tasks(db: &TaskStore) -> (tasks: Vec<Task>)
    ensures
        listed_by_key(views(tasks@), db@),
{
    proof {
        use_type_invariant(db);
        lemma_table_of(views(db.rows@));
    }
    let mut tasks: Vec<Task> = Vec::new();
    let mut i: usize = 0;
    while i < db.rows.len()
        invariant
            i <= db.rows.len(),
            tasks@ == db.rows@.subrange(0, i as int),
        decreases db.rows.len() - i,
    {
        tasks.push(db.rows[i].clone());
        proof {
            assert(tasks@ =~= db.rows@.subrange(0, i as int + 1));
        }
        i = i + 1;
    }
    proof {
        assert(tasks@ =~= db.rows@);
    }
    tasks
}

/// The records dated `date` or later, in the order of the date index: by
/// date, and by key among equal dates.
pub fn load_tasks_by_date(date: &str, db: &TaskStore) -> (tasks: Vec<Task>)
    ensures
        listed_from_date(views(tasks@), db@, date@),
{
    proof {
        use_type_invariant(db);
        lemma_table_of(views(db.rows@));
    }
    let ghost list = views(db.rows@);
    let mut tasks: Vec<Task> = Vec::new();
    let mut i: usize = 0;
    while i < db.rows.len()
        invariant
            i <= db.rows.len(),
            list == views(db.rows@),
            keys_increase(list),
            selected_from(views(tasks@), list, i as int, date@),
        decreases db.rows.len() - i,
    {
        if !precedes(db.rows[i].date.as_str(), date) {
            let task = db.rows[i].clone();
            let at = slot_by_date(&tasks, &task);
            proof {
                if date@ != task@.date {
                    lemma_str_lt_total(date@, task@.date);
                }
                assert(list[i as int] == task@);
                assert(views(tasks@.insert(at as int, task)) =~= views(tasks@).insert(
                    at as int,
                    task@,
                ));
                lemma_select_one_more(views(tasks@), list, i as int, date@, at as int);
            }
            tasks.insert(at, task);
        } else {
            proof {
                assert(list[i as int] == db.rows[i as int]@);
                lemma_str_lt_asymmetric(list[i as int].date, date@);
                lemma_select_none_more(views(tasks@), list, i as int, date@);
            }
        }
        i = i + 1;
    }
    proof {
        lemma_selected_is_listed(views(tasks@), list, date@, db@);
    }
    tasks
}

/// The place of `task` among `tasks` in the order of the date index, where
/// every key in `tasks` comes before the key of `task`: behind every task
/// that is not dated later.
fn slot_by_date(tasks: &Vec<Task>, task: &Task) -> (at: usize)
    requires
        dates_increase(views(tasks@)),
    ensures
        at <= tasks.len(),
        forall|p: int| 0 <= p < at ==> !str_lt(task.date@, #[trigger] tasks[p].date@),
        forall|p: int| at <= p < tasks.len() ==> str_lt(task.date@, #[trigger] tasks[p].date@),
{
    let ghost chosen = views(tasks@);
    let mut low: usize = 0;
    let mut high: usize = tasks.len();
    while low < high
        invariant
            low <= high <= tasks.len(),
            chosen == views(tasks@),
            dates_increase(chosen),
            forall|p: int| 0 <= p < low ==> !str_lt(task.date@, #[trigger] tasks[p].date@),
            forall|p: int|
                high <= p < tasks.len() ==> str_lt(task.date@, #[trigger] tasks[p].date@),
        decreases high - low,
    {
        let mid = low + (high - low) / 2;
        if precedes(task.date.as_str(), tasks[mid].date.as_str()) {
            proof {
                assert forall|p: int| mid <= p < tasks.len() implies str_lt(
                    task.date@,
                    #[trigger] tasks[p].date@,
                ) by {
                    if mid < p {
                        assert(index_lt(chosen[mid as int], chosen[p]));
                        if chosen[mid as int].date != chosen[p].date {
                            lemma_str_lt_transitive(
                                task.date@,
                                tasks[mid as int].date@,
                                tasks[p].date@,
                            );
                        }
                    }
                }
            }
            high = mid;
        } else {
            proof {
                assert forall|p: int| 0 <= p < mid + 1 implies !str_lt(
                    task.date@,
                    #[trigger] tasks[p].date@,
                ) by {
                    if p < mid && str_lt(task.date@, tasks[p].date@) {
                        assert(index_lt(chosen[p], chosen[mid as int]));
                        if chosen[p].date != chosen[mid as int].date {
                            lemma_str_lt_transitive(
                                task.date@,
                                tasks[p].date@,
                                tasks[mid as int].date@,
                            );
                        }
                    }
                }
            }
            low = mid + 1;
        }
    }
    low
}

} // verus!
