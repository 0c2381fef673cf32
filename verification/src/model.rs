//! The store as mathematics: a table from keys to records, what each
//! operation makes of it, and what a listing of it is.

use vstd::prelude::*;
use crate::error::StoreError;
use crate::order::{str_le, str_lt};
use crate::task::{views, Task, TaskView};

verus! {

/// A table is finite and files every record under the record's own key.
pub open spec fn valid_table(table: Map<Seq<char>, TaskView>) -> bool {
    &&& table.dom().finite()
    &&& forall|k: Seq<char>| table.contains_key(k) ==> (#[trigger] table[k]).key == k
}

/// Saving succeeds exactly where the key is not yet taken.
pub open spec fn save_outcome(table: Map<Seq<char>, TaskView>, task: TaskView) -> Result<
    (),
    StoreError,
> {
    if table.contains_key(task.key) {
        Err(StoreError::DuplicateKey)
    } else {
        Ok(())
    }
}

/// The table after a save: one record more, or the same table where the key
/// was taken.
pub open spec fn after_save(table: Map<Seq<char>, TaskView>, task: TaskView) -> Map<
    Seq<char>,
    TaskView,
> {
    if table.contains_key(task.key) {
        table
    } else {
        table.insert(task.key, task)
    }
}

/// Updating succeeds exactly where a record with the key is stored.
pub open spec fn update_outcome(table: Map<Seq<char>, TaskView>, task: TaskView) -> Result<
    (),
    StoreError,
> {
    if table.contains_key(task.key) {
        Ok(())
    } else {
        Err(StoreError::NotFound)
    }
}

/// The table after an update: the record under the key is the new one, whole,
/// or the table is the same where the key was missing.
pub open spec fn after_update(table: Map<Seq<char>, TaskView>, task: TaskView) -> Map<
    Seq<char>,
    TaskView,
> {
    if table.contains_key(task.key) {
        table.insert(task.key, task)
    } else {
        table
    }
}

/// Deleting succeeds exactly where a record with the key is stored.
pub open spec fn delete_outcome(table: Map<Seq<char>, TaskView>, key: Seq<char>) -> Result<
    (),
    StoreError,
> {
    if table.contains_key(key) {
        Ok(())
    } else {
        Err(StoreError::NotFound)
    }
}

/// The table after a delete: without the key.
pub open spec fn after_delete(table: Map<Seq<char>, TaskView>, key: Seq<char>) -> Map<
    Seq<char>,
    TaskView,
> {
    table.remove(key)
}

/// Every entry of `list` is a record of `table`.
pub open spec fn drawn_from(list: Seq<TaskView>, table: Map<Seq<char>, TaskView>) -> bool {
    forall|i: int|
        0 <= i < list.len() ==> table.contains_key((#[trigger] list[i]).key) && table[list[i].key]
            == list[i]
}

/// `list` holds a record with this key.
pub open spec fn lists_key(list: Seq<TaskView>, key: Seq<char>) -> bool {
    exists|i: int| 0 <= i < list.len() && (#[trigger] list[i]).key == key
}

/// The keys of `list` strictly increase.
pub open spec fn keys_increase(list: Seq<TaskView>) -> bool {
    forall|i: int, j: int|
        #![trigger list[i], list[j]]
        0 <= i < j < list.len() ==> str_lt(list[i].key, list[j].key)
}

/// `list` is the whole table in the order of the keys.
pub open spec fn listed_by_key(list: Seq<TaskView>, table: Map<Seq<char>, TaskView>) -> bool {
    &&& drawn_from(list, table)
    &&& forall|k: Seq<char>| #[trigger] table.contains_key(k) ==> lists_key(list, k)
    &&& keys_increase(list)
}

/// The order of the date index: by date, and by key among equal dates.
pub open spec fn index_lt(a: TaskView, b: TaskView) -> bool {
    str_lt(a.date, b.date) || (a.date == b.date && str_lt(a.key, b.key))
}

/// `list` follows the order of the date index.
pub open spec fn dates_increase(list: Seq<TaskView>) -> bool {
    forall|i: int, j: int|
        #![trigger list[i], list[j]]
        0 <= i < j < list.len() ==> index_lt(list[i], list[j])
}

/// `list` holds all and only the records of `table` dated `date` or later,
/// in the order of the date index.
pub open spec fn listed_from_date(
    list: Seq<TaskView>,
    table: Map<Seq<char>, TaskView>,
    date: Seq<char>,
) -> bool {
    &&& drawn_from(list, table)
    &&& forall|i: int| 0 <= i < list.len() ==> str_le(date, (#[trigger] list[i]).date)
    &&& forall|k: Seq<char>|
        #[trigger] table.contains_key(k) && str_le(date, table[k].date) ==> lists_key(list, k)
    &&& dates_increase(list)
}

/// What collecting rows gives: the tasks of all rows where every row was
/// read, else the error of the first row that was not.
pub open spec fn collected(rows: Seq<Result<Task, StoreError>>) -> Result<Seq<Task>, StoreError>
    decreases rows.len(),
{
    if rows.len() == 0 {
        Ok(Seq::empty())
    } else {
        match rows[0] {
            Err(e) => Err(e),
            Ok(task) => match collected(rows.drop_first()) {
                Ok(rest) => Ok(seq![task] + rest),
                Err(e) => Err(e),
            },
        }
    }
}

/// What saving `tasks` one after the other makes of `table`, or the error of
/// the first save that is refused.
pub open spec fn saved_all(table: Map<Seq<char>, TaskView>, tasks: Seq<TaskView>) -> Result<
    Map<Seq<char>, TaskView>,
    StoreError,
>
    decreases tasks.len(),
{
    if tasks.len() == 0 {
        Ok(table)
    } else {
        match save_outcome(table, tasks[0]) {
            Err(e) => Err(e),
            Ok(_) => saved_all(after_save(table, tasks[0]), tasks.drop_first()),
        }
    }
}

/// The table that rows read from durable storage stand for: all of them
/// saved into an empty table, unless a row was not read or a key comes twice.
pub open spec fn restored(rows: Seq<Result<Task, StoreError>>) -> Result<
    Map<Seq<char>, TaskView>,
    StoreError,
> {
    match collected(rows) {
        Err(e) => Err(e),
        Ok(tasks) => saved_all(Map::empty(), views(tasks)),
    }
}

/// A commit that reached durable storage succeeds; one that did not is a
/// failed transaction.
pub open spec fn commit_outcome(durable: bool) -> Result<(), StoreError> {
    if durable {
        Ok(())
    } else {
        Err(StoreError::TransactionFailure)
    }
}

} // verus!
