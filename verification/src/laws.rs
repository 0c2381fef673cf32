//! What holds of the operations taken together, stated over the tables that
//! their contracts speak of.

use vstd::prelude::*;
use crate::error::StoreError;
use crate::model::{
    after_delete, after_save, after_update, collected, delete_outcome, index_lt, listed_by_key,
    listed_from_date, lists_key, restored, save_outcome, saved_all, update_outcome, valid_table,
};
use crate::order::{lemma_str_lt_asymmetric, str_le, str_lt};
use crate::task::{views, Task, TaskView};

verus! {

/// A task saved under a fresh key is saved, and every later listing of the
/// whole store holds that exact record.
pub proof fn law_saved_task_is_listed(
    table: Map<Seq<char>, TaskView>,
    task: TaskView,
    list: Seq<TaskView>,
)
    requires
        !table.contains_key(task.key),
        listed_by_key(list, after_save(table, task)),
    ensures
        save_outcome(table, task) == Ok::<(), StoreError>(()),
        list.contains(task),
{
    let saved = after_save(table, task);
    assert(saved.contains_key(task.key));
    let i = choose|i: int| 0 <= i < list.len() && (#[trigger] list[i]).key == task.key;
    assert(list[i] == task);
}

/// Of two tasks with one key saved one after the other, the second is
/// refused as a duplicate and leaves the store as the first save left it.
pub proof fn law_second_save_is_refused(
    table: Map<Seq<char>, TaskView>,
    first: TaskView,
    second: TaskView,
)
    requires
        first.key == second.key,
    ensures
        save_outcome(after_save(table, first), second) == Err::<(), StoreError>(
            StoreError::DuplicateKey,
        ),
        after_save(after_save(table, first), second) == after_save(table, first),
        !table.contains_key(first.key) ==> after_save(after_save(table, first), second)[first.key]
            == first,
{
}

/// A listing from a date holds a record of the table exactly where the
/// record is dated that date or later, whatever the record's date is
/// otherwise.
pub proof fn law_listing_from_date_is_a_range(
    table: Map<Seq<char>, TaskView>,
    date: Seq<char>,
    list: Seq<TaskView>,
    key: Seq<char>,
)
    requires
        listed_from_date(list, table, date),
        table.contains_key(key),
    ensures
        list.contains(table[key]) <==> str_le(date, table[key].date),
{
    if str_le(date, table[key].date) {
        let i = choose|i: int| 0 <= i < list.len() && (#[trigger] list[i]).key == key;
        assert(list[i] == table[key]);
    }
    if list.contains(table[key]) {
        let i = choose|i: int| 0 <= i < list.len() && list[i] == table[key];
        assert(str_le(date, list[i].date));
    }
}

/// Updating under a key that is not stored is refused and changes nothing.
pub proof fn law_update_of_missing_key_changes_nothing(
    table: Map<Seq<char>, TaskView>,
    task: TaskView,
)
    requires
        !table.contains_key(task.key),
    ensures
        update_outcome(table, task) == Err::<(), StoreError>(StoreError::NotFound),
        after_update(table, task) == table,
{
}

/// Updating under a stored key replaces the record as a whole: a later
/// listing holds the new record, holds no other record under that key, and
/// holds every other record as it was.
pub proof fn law_update_replaces_the_record(
    table: Map<Seq<char>, TaskView>,
    task: TaskView,
    list: Seq<TaskView>,
)
    requires
        table.contains_key(task.key),
        listed_by_key(list, after_update(table, task)),
    ensures
        update_outcome(table, task) == Ok::<(), StoreError>(()),
        list.contains(task),
        forall|i: int|
            0 <= i < list.len() && (#[trigger] list[i]).key == task.key ==> list[i] == task,
        forall|i: int|
            0 <= i < list.len() && (#[trigger] list[i]).key != task.key ==> table.contains_key(
                list[i].key,
            ) && table[list[i].key] == list[i],
{
    let updated = after_update(table, task);
    assert(updated.contains_key(task.key));
    let i = choose|i: int| 0 <= i < list.len() && (#[trigger] list[i]).key == task.key;
    assert(list[i] == task);
    assert forall|i: int| 0 <= i < list.len() && (#[trigger] list[i]).key != task.key implies
        table.contains_key(list[i].key) && table[list[i].key] == list[i] by {
        assert(updated.contains_key(list[i].key));
    }
}

/// Deleting a stored key succeeds; a later listing holds no record under
/// it, and deleting it once more is refused.
pub proof fn law_deleted_key_is_gone(
    table: Map<Seq<char>, TaskView>,
    key: Seq<char>,
    list: Seq<TaskView>,
)
    requires
        table.contains_key(key),
        listed_by_key(list, after_delete(table, key)),
    ensures
        delete_outcome(table, key) == Ok::<(), StoreError>(()),
        !lists_key(list, key),
        delete_outcome(after_delete(table, key), key) == Err::<(), StoreError>(
            StoreError::NotFound,
        ),
        after_delete(after_delete(table, key), key) == after_delete(table, key),
{
    let reduced = after_delete(table, key);
    if lists_key(list, key) {
        let i = choose|i: int| 0 <= i < list.len() && (#[trigger] list[i]).key == key;
        assert(reduced.contains_key(list[i].key));
    }
    assert(reduced.remove(key) =~= reduced);
}

/// Every operation makes a valid table of a valid table.
pub proof fn law_tables_stay_valid(table: Map<Seq<char>, TaskView>, task: TaskView)
    requires
        valid_table(table),
    ensures
        valid_table(after_save(table, task)),
        valid_table(after_update(table, task)),
        valid_table(after_delete(table, task.key)),
{
}

/// The order of the date index never holds both ways.
pub proof fn lemma_index_lt_asymmetric(a: TaskView, b: TaskView)
    requires
        index_lt(a, b),
    ensures
        !index_lt(b, a),
{
    if str_lt(a.date, b.date) {
        lemma_str_lt_asymmetric(a.date, b.date);
    } else {
        lemma_str_lt_asymmetric(a.key, b.key);
    }
}

/// Two lists that hold the same records and both increase strictly in one
/// order that never holds both ways are one list.
proof fn lemma_increasing_lists_agree(
    a: Seq<TaskView>,
    b: Seq<TaskView>,
    lt: spec_fn(TaskView, TaskView) -> bool,
)
    requires
        forall|x: TaskView, y: TaskView| #[trigger] lt(x, y) ==> !lt(y, x),
        forall|i: int, j: int| #![trigger a[i], a[j]] 0 <= i < j < a.len() ==> lt(a[i], a[j]),
        forall|i: int, j: int| #![trigger b[i], b[j]] 0 <= i < j < b.len() ==> lt(b[i], b[j]),
        forall|i: int| 0 <= i < a.len() ==> b.contains(#[trigger] a[i]),
        forall|i: int| 0 <= i < b.len() ==> a.contains(#[trigger] b[i]),
    ensures
        a == b,
    decreases a.len(),
{
    if a.len() == 0 {
        if b.len() > 0 {
            assert(a.contains(b[0]));
        }
        assert(a =~= b);
    } else {
        let la = a.last();
        assert(b.contains(a[a.len() - 1]));
        let lb = b.last();
        assert(a.contains(b[b.len() - 1]));
        let i = choose|i: int| 0 <= i < a.len() && a[i] == lb;
        let j = choose|j: int| 0 <= j < b.len() && b[j] == la;
        if i < a.len() - 1 && j < b.len() - 1 {
            assert(lt(a[i], a[a.len() - 1]));
            assert(lt(b[j], b[b.len() - 1]));
        } else if i < a.len() - 1 {
            assert(lt(a[i], a[a.len() - 1]));
        } else if j < b.len() - 1 {
            assert(lt(b[j], b[b.len() - 1]));
        }
        assert(la == lb);
        let fa = a.drop_last();
        let fb = b.drop_last();
        assert forall|p: int| 0 <= p < fa.len() implies fb.contains(#[trigger] fa[p]) by {
            assert(fa[p] == a[p]);
            assert(b.contains(a[p]));
            let q = choose|q: int| 0 <= q < b.len() && b[q] == a[p];
            assert(lt(a[p], a[a.len() - 1]));
            assert(q < b.len() - 1);
            assert(fb[q] == a[p]);
        }
        assert forall|q: int| 0 <= q < fb.len() implies fa.contains(#[trigger] fb[q]) by {
            assert(fb[q] == b[q]);
            assert(a.contains(b[q]));
            let p = choose|p: int| 0 <= p < a.len() && a[p] == b[q];
            assert(lt(b[q], b[b.len() - 1]));
            assert(p < a.len() - 1);
            assert(fa[p] == b[q]);
        }
        assert forall|p: int, q: int| 0 <= p < q < fa.len() implies lt(fa[p], fa[q]) by {
            assert(lt(a[p], a[q]));
        }
        assert forall|p: int, q: int| 0 <= p < q < fb.len() implies lt(fb[p], fb[q]) by {
            assert(lt(b[p], b[q]));
        }
        lemma_increasing_lists_agree(fa, fb, lt);
        assert(a =~= fa.push(la));
        assert(b =~= fb.push(lb));
    }
}

/// A table has one listing by key only.
pub proof fn law_listing_by_key_is_unique(
    table: Map<Seq<char>, TaskView>,
    a: Seq<TaskView>,
    b: Seq<TaskView>,
)
    requires
        listed_by_key(a, table),
        listed_by_key(b, table),
    ensures
        a == b,
{
    let lt = |x: TaskView, y: TaskView| str_lt(x.key, y.key);
    assert forall|x: TaskView, y: TaskView| #[trigger] lt(x, y) implies !lt(y, x) by {
        lemma_str_lt_asymmetric(x.key, y.key);
    }
    assert forall|i: int| 0 <= i < a.len() implies b.contains(#[trigger] a[i]) by {
        assert(table.contains_key(a[i].key));
        let j = choose|j: int| 0 <= j < b.len() && (#[trigger] b[j]).key == a[i].key;
        assert(b[j] == a[i]);
    }
    assert forall|i: int| 0 <= i < b.len() implies a.contains(#[trigger] b[i]) by {
        assert(table.contains_key(b[i].key));
        let j = choose|j: int| 0 <= j < a.len() && (#[trigger] a[j]).key == b[i].key;
        assert(a[j] == b[i]);
    }
    assert forall|i: int, j: int| #![trigger a[i], a[j]] 0 <= i < j < a.len() implies lt(
        a[i],
        a[j],
    ) by {}
    assert forall|i: int, j: int| #![trigger b[i], b[j]] 0 <= i < j < b.len() implies lt(
        b[i],
        b[j],
    ) by {}
    lemma_increasing_lists_agree(a, b, lt);
}

/// A table has one listing from a given date only.
pub proof fn law_listing_from_date_is_unique(
    table: Map<Seq<char>, TaskView>,
    date: Seq<char>,
    a: Seq<TaskView>,
    b: Seq<TaskView>,
)
    requires
        listed_from_date(a, table, date),
        listed_from_date(b, table, date),
    ensures
        a == b,
{
    let lt = |x: TaskView, y: TaskView| index_lt(x, y);
    assert forall|x: TaskView, y: TaskView| #[trigger] lt(x, y) implies !lt(y, x) by {
        lemma_index_lt_asymmetric(x, y);
    }
    assert forall|i: int| 0 <= i < a.len() implies b.contains(#[trigger] a[i]) by {
        assert(table.contains_key(a[i].key) && str_le(date, table[a[i].key].date));
        let j = choose|j: int| 0 <= j < b.len() && (#[trigger] b[j]).key == a[i].key;
        assert(b[j] == a[i]);
    }
    assert forall|i: int| 0 <= i < b.len() implies a.contains(#[trigger] b[i]) by {
        assert(table.contains_key(b[i].key) && str_le(date, table[b[i].key].date));
        let j = choose|j: int| 0 <= j < a.len() && (#[trigger] a[j]).key == b[i].key;
        assert(a[j] == b[i]);
    }
    assert forall|i: int, j: int| #![trigger a[i], a[j]] 0 <= i < j < a.len() implies lt(
        a[i],
        a[j],
    ) by {}
    assert forall|i: int, j: int| #![trigger b[i], b[j]] 0 <= i < j < b.len() implies lt(
        b[i],
        b[j],
    ) by {}
    lemma_increasing_lists_agree(a, b, lt);
}

/// The rows that were all read, one for each of `tasks`.
pub open spec fn rows_read(tasks: Seq<Task>) -> Seq<Result<Task, StoreError>> {
    tasks.map_values(|task: Task| Ok::<Task, StoreError>(task))
}

/// Rows that were all read are collected as they are.
proof fn lemma_rows_read_are_collected(tasks: Seq<Task>)
    ensures
        collected(rows_read(tasks)) == Ok::<Seq<Task>, StoreError>(tasks),
    decreases tasks.len(),
{
    let rows = rows_read(tasks);
    if tasks.len() == 0 {
        assert(tasks =~= Seq::empty());
    } else {
        lemma_rows_read_are_collected(tasks.drop_first());
        assert(rows.drop_first() =~= rows_read(tasks.drop_first()));
        assert(seq![tasks[0]] + tasks.drop_first() =~= tasks);
    }
}

/// Saving the rest of a listing into the part of its table that the rows
/// before hold gives the table.
proof fn lemma_saving_a_listing(
    list: Seq<TaskView>,
    table: Map<Seq<char>, TaskView>,
    part: Map<Seq<char>, TaskView>,
    from: int,
)
    requires
        listed_by_key(list, table),
        0 <= from <= list.len(),
        forall|k: Seq<char>| #[trigger]
            part.contains_key(k) <==> exists|j: int|
                0 <= j < from && (#[trigger] list[j]).key == k,
        forall|k: Seq<char>| #[trigger] part.contains_key(k) ==> part[k] == table[k],
    ensures
        saved_all(part, list.skip(from)) == Ok::<Map<Seq<char>, TaskView>, StoreError>(table),
    decreases list.len() - from,
{
    let rest = list.skip(from);
    if from == list.len() {
        assert forall|k: Seq<char>| table.contains_key(k) implies part.contains_key(k) by {
            let j = choose|j: int| 0 <= j < list.len() && (#[trigger] list[j]).key == k;
            assert(list[j].key == k);
        }
        assert forall|k: Seq<char>| part.contains_key(k) implies table.contains_key(k) by {
            let j = choose|j: int| 0 <= j < from && (#[trigger] list[j]).key == k;
            assert(table.contains_key(list[j].key));
        }
        assert(part =~= table);
    } else {
        let task = list[from];
        assert(rest[0] == task);
        assert(rest.drop_first() =~= list.skip(from + 1));
        if part.contains_key(task.key) {
            let j = choose|j: int| 0 <= j < from && (#[trigger] list[j]).key == task.key;
            assert(str_lt(list[j].key, list[from].key));
            lemma_str_lt_asymmetric(list[j].key, task.key);
        }
        let more = after_save(part, task);
        assert forall|k: Seq<char>| #[trigger]
            more.contains_key(k) <==> exists|j: int|
                0 <= j < from + 1 && (#[trigger] list[j]).key == k by {
            if more.contains_key(k) {
                if k == task.key {
                    assert(list[from].key == k);
                } else {
                    let j = choose|j: int| 0 <= j < from && (#[trigger] list[j]).key == k;
                    assert(list[j].key == k);
                }
            }
            if exists|j: int| 0 <= j < from + 1 && (#[trigger] list[j]).key == k {
                let j = choose|j: int| 0 <= j < from + 1 && (#[trigger] list[j]).key == k;
                if j < from {
                    assert(list[j].key == k);
                    assert(part.contains_key(k));
                }
            }
        }
        assert forall|k: Seq<char>| #[trigger] more.contains_key(k) implies more[k] == table[k] by {
            if k == task.key {
                assert(table[list[from].key] == list[from]);
            }
        }
        lemma_saving_a_listing(list, table, more, from + 1);
    }
}

/// What a store lists by key, read back row by row, restores that store.
pub proof fn law_listing_restores_the_table(table: Map<Seq<char>, TaskView>, tasks: Seq<Task>)
    requires
        listed_by_key(views(tasks), table),
    ensures
        restored(rows_read(tasks)) == Ok::<Map<Seq<char>, TaskView>, StoreError>(table),
{
    lemma_rows_read_are_collected(tasks);
    let list = views(tasks);
    assert(list.skip(0) =~= list);
    lemma_saving_a_listing(list, table, Map::empty(), 0);
}

} // verus!
