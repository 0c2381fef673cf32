//! Rows in the order of their keys, the table that they stand for, and what
//! becomes of that table where a row is put in, replaced or taken out.

use vstd::prelude::*;
use crate::model::{
    dates_increase, index_lt, keys_increase, listed_by_key, listed_from_date, lists_key,
    valid_table,
};
use crate::order::{lemma_str_lt_asymmetric, lemma_str_lt_total, str_le, str_lt};
use crate::task::TaskView;

verus! {

/// The table that holds exactly the records of `list`.
pub(crate) open spec fn table_of(list: Seq<TaskView>) -> Map<Seq<char>, TaskView>
    decreases list.len(),
{
    if list.len() == 0 {
        Map::empty()
    } else {
        table_of(list.drop_last()).insert(list.last().key, list.last())
    }
}

/// A list with increasing keys is the listing of its table.
pub(crate) proof fn lemma_table_of(list: Seq<TaskView>)
    requires
        keys_increase(list),
    ensures
        valid_table(table_of(list)),
        listed_by_key(list, table_of(list)),
    decreases list.len(),
{
    if list.len() > 0 {
        let front = list.drop_last();
        let last = list.last();
        lemma_table_of(front);
        let table = table_of(list);
        assert forall|i: int| 0 <= i < list.len() implies table.contains_key(
            (#[trigger] list[i]).key,
        ) && table[list[i].key] == list[i] by {
            if i < list.len() - 1 {
                assert(front[i] == list[i]);
                assert(str_lt(list[i].key, list[list.len() - 1].key));
                lemma_str_lt_asymmetric(list[i].key, last.key);
            }
        }
        assert forall|k: Seq<char>| #[trigger] table.contains_key(k) implies lists_key(
            list,
            k,
        ) by {
            if k == last.key {
                assert(list[list.len() - 1].key == k);
            } else {
                assert(table_of(front).contains_key(k));
                let i = choose|i: int| 0 <= i < front.len() && (#[trigger] front[i]).key == k;
                assert(list[i].key == k);
            }
        }
    }
}

/// A table has one listing by key only: the list it was made of.
pub(crate) proof fn lemma_table_of_listing(list: Seq<TaskView>, table: Map<Seq<char>, TaskView>)
    requires
        listed_by_key(list, table),
    ensures
        table_of(list) == table,
{
    lemma_table_of(list);
    let made = table_of(list);
    assert forall|k: Seq<char>| made.contains_key(k) implies table.contains_key(k) by {
        let i = choose|i: int| 0 <= i < list.len() && (#[trigger] list[i]).key == k;
        assert(table.contains_key(list[i].key));
    }
    assert forall|k: Seq<char>| table.contains_key(k) implies made.contains_key(k) && made[k]
        == table[k] by {
        let i = choose|i: int| 0 <= i < list.len() && (#[trigger] list[i]).key == k;
        assert(made.contains_key(list[i].key));
    }
    assert(made =~= table);
}

/// A key that falls between two neighbours of a listing is not in its table.
pub(crate) proof fn lemma_absent(list: Seq<TaskView>, at: int, key: Seq<char>)
    requires
        keys_increase(list),
        0 <= at <= list.len(),
        forall|j: int| 0 <= j < at ==> str_lt((#[trigger] list[j]).key, key),
        forall|j: int| at <= j < list.len() ==> str_lt(key, (#[trigger] list[j]).key),
    ensures
        !table_of(list).contains_key(key),
{
    lemma_table_of(list);
    if table_of(list).contains_key(key) {
        let j = choose|j: int| 0 <= j < list.len() && (#[trigger] list[j]).key == key;
        if j < at {
            lemma_str_lt_asymmetric(list[j].key, key);
        } else {
            lemma_str_lt_asymmetric(key, list[j].key);
        }
    }
}

/// Putting a record at its place in a listing lists the table with that
/// record added.
pub(crate) proof fn lemma_insert_lists(list: Seq<TaskView>, at: int, task: TaskView)
    requires
        keys_increase(list),
        0 <= at <= list.len(),
        forall|j: int| 0 <= j < at ==> str_lt((#[trigger] list[j]).key, task.key),
        forall|j: int| at <= j < list.len() ==> str_lt(task.key, (#[trigger] list[j]).key),
    ensures
        !table_of(list).contains_key(task.key),
        listed_by_key(list.insert(at, task), table_of(list).insert(task.key, task)),
{
    lemma_table_of(list);
    let table = table_of(list);
    let longer = list.insert(at, task);
    let grown = table.insert(task.key, task);
    if table.contains_key(task.key) {
        let j = choose|j: int| 0 <= j < list.len() && (#[trigger] list[j]).key == task.key;
        if j < at {
            lemma_str_lt_asymmetric(list[j].key, task.key);
        } else {
            lemma_str_lt_asymmetric(task.key, list[j].key);
        }
    }
    assert forall|i: int| 0 <= i < longer.len() implies grown.contains_key(
        (#[trigger] longer[i]).key,
    ) && grown[longer[i].key] == longer[i] by {
        if i < at {
            assert(longer[i] == list[i]);
            lemma_str_lt_asymmetric(list[i].key, task.key);
        } else if i > at {
            assert(longer[i] == list[i - 1]);
            lemma_str_lt_asymmetric(task.key, list[i - 1].key);
        }
    }
    assert forall|k: Seq<char>| #[trigger] grown.contains_key(k) implies lists_key(longer, k) by {
        if k == task.key {
            assert(longer[at].key == k);
        } else {
            let j = choose|j: int| 0 <= j < list.len() && (#[trigger] list[j]).key == k;
            if j < at {
                assert(longer[j].key == k);
            } else {
                assert(longer[j + 1].key == k);
            }
        }
    }
    assert forall|i: int, j: int| 0 <= i < j < longer.len() implies str_lt(
        longer[i].key,
        longer[j].key,
    ) by {
        let a = if i < at { i } else { i - 1 };
        let b = if j < at { j } else { j - 1 };
        if i != at && j != at {
            assert(longer[i] == list[a] && longer[j] == list[b]);
        } else if i == at {
            assert(longer[j] == list[b]);
        } else {
            assert(longer[i] == list[a]);
        }
    }
}

/// Putting a record in the place of the one with its key lists the table
/// with that record replaced.
pub(crate) proof fn lemma_replace_lists(list: Seq<TaskView>, at: int, task: TaskView)
    requires
        keys_increase(list),
        0 <= at < list.len(),
        list[at].key == task.key,
    ensures
        listed_by_key(list.update(at, task), table_of(list).insert(task.key, task)),
{
    lemma_table_of(list);
    let table = table_of(list);
    let changed = list.update(at, task);
    let replaced = table.insert(task.key, task);
    assert forall|i: int| 0 <= i < changed.len() implies replaced.contains_key(
        (#[trigger] changed[i]).key,
    ) && replaced[changed[i].key] == changed[i] by {
        if i < at {
            assert(str_lt(list[i].key, list[at].key));
            lemma_str_lt_asymmetric(list[i].key, task.key);
        } else if i > at {
            assert(str_lt(list[at].key, list[i].key));
            lemma_str_lt_asymmetric(task.key, list[i].key);
        }
    }
    assert forall|k: Seq<char>| #[trigger] replaced.contains_key(k) implies lists_key(
        changed,
        k,
    ) by {
        if k == task.key {
            assert(changed[at].key == k);
        } else {
            let j = choose|j: int| 0 <= j < list.len() && (#[trigger] list[j]).key == k;
            assert(changed[j].key == k);
        }
    }
    assert forall|i: int, j: int| 0 <= i < j < changed.len() implies str_lt(
        changed[i].key,
        changed[j].key,
    ) by {
        assert(str_lt(list[i].key, list[j].key));
    }
}

/// Taking a record out of a listing lists the table without its key.
pub(crate) proof fn lemma_remove_lists(list: Seq<TaskView>, at: int)
    requires
        keys_increase(list),
        0 <= at < list.len(),
    ensures
        listed_by_key(list.remove(at), table_of(list).remove(list[at].key)),
{
    lemma_table_of(list);
    let table = table_of(list);
    let shorter = list.remove(at);
    let reduced = table.remove(list[at].key);
    assert forall|i: int| 0 <= i < shorter.len() implies reduced.contains_key(
        (#[trigger] shorter[i]).key,
    ) && reduced[shorter[i].key] == shorter[i] by {
        if i < at {
            assert(shorter[i] == list[i]);
            assert(str_lt(list[i].key, list[at].key));
            lemma_str_lt_asymmetric(list[i].key, list[at].key);
        } else {
            assert(shorter[i] == list[i + 1]);
            assert(str_lt(list[at].key, list[i + 1].key));
            lemma_str_lt_asymmetric(list[at].key, list[i + 1].key);
        }
    }
    assert forall|k: Seq<char>| #[trigger] reduced.contains_key(k) implies lists_key(
        shorter,
        k,
    ) by {
        let j = choose|j: int| 0 <= j < list.len() && (#[trigger] list[j]).key == k;
        if j < at {
            assert(shorter[j].key == k);
        } else {
            assert(shorter[j - 1].key == k);
        }
    }
    assert forall|i: int, j: int| 0 <= i < j < shorter.len() implies str_lt(
        shorter[i].key,
        shorter[j].key,
    ) by {
        let a = if i < at { i } else { i + 1 };
        let b = if j < at { j } else { j + 1 };
        assert(shorter[i] == list[a] && shorter[j] == list[b]);
    }
}

/// `chosen` holds all and only the records among the first `upto` of `list`
/// that are dated `date` or later, in the order of the date index.
pub(crate) open spec fn selected_from(
    chosen: Seq<TaskView>,
    list: Seq<TaskView>,
    upto: int,
    date: Seq<char>,
) -> bool {
    &&& 0 <= upto <= list.len()
    &&& forall|p: int|
        0 <= p < chosen.len() ==> str_le(date, (#[trigger] chosen[p]).date) && exists|j: int|
            0 <= j < upto && #[trigger] list[j] == chosen[p]
    &&& forall|j: int|
        0 <= j < upto && str_le(date, (#[trigger] list[j]).date) ==> lists_key(chosen, list[j].key)
    &&& dates_increase(chosen)
}

/// A record that is dated too early leaves the selection as it is.
pub(crate) proof fn lemma_select_none_more(
    chosen: Seq<TaskView>,
    list: Seq<TaskView>,
    upto: int,
    date: Seq<char>,
)
    requires
        selected_from(chosen, list, upto, date),
        upto < list.len(),
        !str_le(date, list[upto].date),
    ensures
        selected_from(chosen, list, upto + 1, date),
{
    assert forall|p: int| 0 <= p < chosen.len() implies str_le(date, (#[trigger] chosen[p]).date)
        && exists|j: int| 0 <= j < upto + 1 && #[trigger] list[j] == chosen[p] by {
        let j = choose|j: int| 0 <= j < upto && #[trigger] list[j] == chosen[p];
        assert(list[j] == chosen[p]);
    }
}

/// A record that is dated late enough joins the selection at its place.
pub(crate) proof fn lemma_select_one_more(
    chosen: Seq<TaskView>,
    list: Seq<TaskView>,
    upto: int,
    date: Seq<char>,
    at: int,
)
    requires
        selected_from(chosen, list, upto, date),
        keys_increase(list),
        upto < list.len(),
        str_le(date, list[upto].date),
        0 <= at <= chosen.len(),
        forall|p: int| 0 <= p < at ==> !str_lt(list[upto].date, (#[trigger] chosen[p]).date),
        forall|p: int|
            at <= p < chosen.len() ==> str_lt(list[upto].date, (#[trigger] chosen[p]).date),
    ensures
        selected_from(chosen.insert(at, list[upto]), list, upto + 1, date),
{
    let task = list[upto];
    let longer = chosen.insert(at, task);
    assert forall|p: int| 0 <= p < longer.len() implies str_le(date, (#[trigger] longer[p]).date)
        && exists|j: int| 0 <= j < upto + 1 && #[trigger] list[j] == longer[p] by {
        if p == at {
            assert(list[upto] == longer[p]);
        } else {
            let q = if p < at { p } else { p - 1 };
            assert(longer[p] == chosen[q]);
            let j = choose|j: int| 0 <= j < upto && #[trigger] list[j] == chosen[q];
            assert(list[j] == longer[p]);
        }
    }
    assert forall|j: int|
        0 <= j < upto + 1 && str_le(date, (#[trigger] list[j]).date) implies lists_key(
        longer,
        list[j].key,
    ) by {
        if j == upto {
            assert(longer[at].key == list[j].key);
        } else {
            let p = choose|p: int|
                0 <= p < chosen.len() && (#[trigger] chosen[p]).key == list[j].key;
            if p < at {
                assert(longer[p].key == list[j].key);
            } else {
                assert(longer[p + 1].key == list[j].key);
            }
        }
    }
    assert forall|p: int, q: int| 0 <= p < q < longer.len() implies index_lt(
        longer[p],
        longer[q],
    ) by {
        let a = if p < at { p } else { p - 1 };
        let b = if q < at { q } else { q - 1 };
        if p != at && q != at {
            assert(longer[p] == chosen[a] && longer[q] == chosen[b]);
        } else if p == at {
            assert(longer[q] == chosen[b]);
        } else {
            assert(longer[p] == chosen[a]);
            let j = choose|j: int| 0 <= j < upto && #[trigger] list[j] == chosen[a];
            assert(str_lt(list[j].key, list[upto].key));
            if chosen[a].date != task.date {
                lemma_str_lt_total(chosen[a].date, task.date);
            }
        }
    }
}

/// A selection from the whole listing of a table is its listing from the date.
pub(crate) proof fn lemma_selected_is_listed(
    chosen: Seq<TaskView>,
    list: Seq<TaskView>,
    date: Seq<char>,
    table: Map<Seq<char>, TaskView>,
)
    requires
        selected_from(chosen, list, list.len() as int, date),
        listed_by_key(list, table),
    ensures
        listed_from_date(chosen, table, date),
{
    assert forall|p: int| 0 <= p < chosen.len() implies table.contains_key(
        (#[trigger] chosen[p]).key,
    ) && table[chosen[p].key] == chosen[p] by {
        let j = choose|j: int| 0 <= j < list.len() && #[trigger] list[j] == chosen[p];
        assert(table.contains_key(list[j].key));
    }
    assert forall|k: Seq<char>| #[trigger]
        table.contains_key(k) && str_le(date, table[k].date) implies lists_key(chosen, k) by {
        let j = choose|j: int| 0 <= j < list.len() && (#[trigger] list[j]).key == k;
        assert(table[list[j].key] == list[j]);
    }
}

} // verus!
