//! The sorter: a stable sort of the task list keyed on a selectable
//! field, with a wholesale reversal for descending order.

use crate::task::{views_of, Task, TaskView};
use crate::text::{lemma_lex_le_total, lemma_lex_le_trans, lex_le, str_le};
use vstd::prelude::*;

verus! {

/// The field the list is ordered by.
#[derive(Clone, Copy, PartialEq, Eq, Structural, Debug)]
pub enum SortField {
    Description,
    Status,
    Deadline,
    Reminder,
}

/// The direction of the order.
#[derive(Clone, Copy, PartialEq, Eq, Structural, Debug)]
pub enum SortOrder {
    Ascending,
    Descending,
}

/// Whether `a` sorts at or before `b` under the chosen field: text fields
/// compare lexicographically, the deadline chronologically.
pub open spec fn key_le(a: TaskView, b: TaskView, field: SortField) -> bool {
    match field {
        SortField::Description => lex_le(a.description, b.description),
        SortField::Status => lex_le(a.status, b.status),
        SortField::Deadline => a.deadline.spec_le(b.deadline),
        SortField::Reminder => lex_le(a.reminder, b.reminder),
    }
}

/// The sort keys form a total preorder: any two records compare.
pub proof fn lemma_key_le_total(a: TaskView, b: TaskView, field: SortField)
    ensures
        key_le(a, b, field) || key_le(b, a, field),
{
    match field {
        SortField::Description => lemma_lex_le_total(a.description, b.description),
        SortField::Status => lemma_lex_le_total(a.status, b.status),
        SortField::Deadline => {},
        SortField::Reminder => lemma_lex_le_total(a.reminder, b.reminder),
    }
}

/// The sort keys compare transitively.
pub proof fn lemma_key_le_trans(a: TaskView, b: TaskView, c: TaskView, field: SortField)
    requires
        key_le(a, b, field),
        key_le(b, c, field),
    ensures
        key_le(a, c, field),
{
    match field {
        SortField::Description => lemma_lex_le_trans(a.description, b.description, c.description),
        SortField::Status => lemma_lex_le_trans(a.status, b.status, c.status),
        SortField::Deadline => {},
        SortField::Reminder => lemma_lex_le_trans(a.reminder, b.reminder, c.reminder),
    }
}

/// Inserts `x` into `s` after every element that sorts at or before it.
/// Where keys tie, `x` lands after the earlier elements: this is what
/// makes the sort stable.
pub open spec fn insert_sorted(x: TaskView, s: Seq<TaskView>, field: SortField) -> Seq<TaskView>
    decreases s.len(),
{
    if s.len() == 0 {
        seq![x]
    } else if key_le(s.last(), x, field) {
        s.push(x)
    } else {
        insert_sorted(x, s.drop_last(), field).push(s.last())
    }
}

/// The stable ascending sort of `s` by the chosen field: each record is
/// inserted, in input order, after the records that sort at or before it.
pub open spec fn sort_by_field(s: Seq<TaskView>, field: SortField) -> Seq<TaskView>
    decreases s.len(),
{
    if s.len() == 0 {
        Seq::<TaskView>::empty()
    } else {
        insert_sorted(s.last(), sort_by_field(s.drop_last(), field), field)
    }
}

/// What sorting leaves in the list: the stable ascending order, reversed
/// wholesale when descending order is asked for.
pub open spec fn sorted_view(s: Seq<TaskView>, field: SortField, order: SortOrder) -> Seq<
    TaskView,
> {
    match order {
        SortOrder::Ascending => sort_by_field(s, field),
        SortOrder::Descending => sort_by_field(s, field).reverse(),
    }
}

/// Nondecreasing by the chosen key.
pub open spec fn sorted_by(s: Seq<TaskView>, field: SortField) -> bool {
    forall|i: int, j: int| 0 <= i < j < s.len() ==> key_le(s[i], s[j], field)
}

fn key_le_tasks(a: &Task, b: &Task, field: &SortField) -> (r: bool)
    ensures
        r == key_le(a@, b@, *field),
{
    match field {
        SortField::Description => str_le(a.description.as_str(), b.description.as_str()),
        SortField::Status => str_le(a.status.as_str(), b.status.as_str()),
        SortField::Deadline => a.deadline.le(&b.deadline),
        SortField::Reminder => str_le(a.reminder.as_str(), b.reminder.as_str()),
    }
}

/// Every element of an insertion's result is the inserted one or one of
/// the originals.
proof fn lemma_insert_sorted_elems(x: TaskView, s: Seq<TaskView>, field: SortField)
    ensures
        insert_sorted(x, s, field).len() == s.len() + 1,
        forall|i: int|
            0 <= i < insert_sorted(x, s, field).len() ==> (#[trigger] insert_sorted(
                x,
                s,
                field,
            )[i] == x || s.contains(insert_sorted(x, s, field)[i])),
    decreases s.len(),
{
    let r = insert_sorted(x, s, field);
    if s.len() == 0 {
    } else if key_le(s.last(), x, field) {
        assert forall|i: int| 0 <= i < r.len() implies (r[i] == x || s.contains(r[i])) by {
            if i < s.len() {
                assert(s[i] == r[i]);
            }
        }
    } else {
        lemma_insert_sorted_elems(x, s.drop_last(), field);
        let q = insert_sorted(x, s.drop_last(), field);
        assert forall|i: int| 0 <= i < r.len() implies (r[i] == x || s.contains(r[i])) by {
            if i < q.len() {
                assert(r[i] == q[i]);
                if q[i] != x {
                    let k = choose|k: int| 0 <= k < s.drop_last().len() && s.drop_last()[k] == q[i];
                    assert(s[k] == q[i]);
                }
            } else {
                assert(r[i] == s.last());
                assert(s[s.len() - 1] == s.last());
            }
        }
    }
}

/// Inserting into a sorted sequence keeps it sorted.
proof fn lemma_insert_sorted_sorted(x: TaskView, s: Seq<TaskView>, field: SortField)
    requires
        sorted_by(s, field),
    ensures
        sorted_by(insert_sorted(x, s, field), field),
    decreases s.len(),
{
    let r = insert_sorted(x, s, field);
    if s.len() == 0 {
    } else if key_le(s.last(), x, field) {
        assert forall|i: int, j: int| 0 <= i < j < r.len() implies key_le(r[i], r[j], field) by {
            if j == s.len() {
                assert(r[i] == s[i]);
                if i < s.len() - 1 {
                    lemma_key_le_trans(s[i], s.last(), x, field);
                } else {
                    assert(s[i] == s.last());
                }
            } else {
                assert(r[i] == s[i] && r[j] == s[j]);
            }
        }
    } else {
        assert(sorted_by(s.drop_last(), field)) by {
            assert(forall|i: int, j: int|
                0 <= i < j < s.drop_last().len() ==> s.drop_last()[i] == s[i]
                    && s.drop_last()[j] == s[j]);
        }
        lemma_insert_sorted_sorted(x, s.drop_last(), field);
        lemma_insert_sorted_elems(x, s.drop_last(), field);
        let q = insert_sorted(x, s.drop_last(), field);
        lemma_key_le_total(s.last(), x, field);
        assert forall|i: int, j: int| 0 <= i < j < r.len() implies key_le(r[i], r[j], field) by {
            if j < q.len() {
                assert(r[i] == q[i] && r[j] == q[j]);
            } else {
                assert(r[j] == s.last());
                assert(r[i] == q[i]);
                if q[i] == x {
                    assert(key_le(x, s.last(), field));
                } else {
                    let k = choose|k: int|
                        0 <= k < s.drop_last().len() && s.drop_last()[k] == q[i];
                    assert(s[k] == q[i]);
                    if k < s.len() - 1 {
                        assert(key_le(s[k], s.last(), field));
                    }
                }
            }
        }
    }
}

/// Sorting sorts: the ascending result is nondecreasing by the chosen key.
pub proof fn lemma_sort_by_field_sorted(s: Seq<TaskView>, field: SortField)
    ensures
        sort_by_field(s, field).len() == s.len(),
        sorted_by(sort_by_field(s, field), field),
    decreases s.len(),
{
    if s.len() > 0 {
        lemma_sort_by_field_sorted(s.drop_last(), field);
        lemma_insert_sorted_sorted(s.last(), sort_by_field(s.drop_last(), field), field);
        lemma_insert_sorted_elems(s.last(), sort_by_field(s.drop_last(), field), field);
    }
}

/// Inserting `x` leaves every tied-key subsequence as it was, except that
/// `x` itself joins the end of its own key class.
proof fn lemma_insert_sorted_filter(
    x: TaskView,
    s: Seq<TaskView>,
    field: SortField,
    p: spec_fn(TaskView) -> bool,
)
    requires
        sorted_by(s, field),
        forall|a: TaskView, b: TaskView|
            #[trigger] p(a) && key_le(a, b, field) && key_le(b, a, field) ==> #[trigger] p(b),
        forall|a: TaskView, b: TaskView|
            #[trigger] p(a) && #[trigger] p(b) ==> key_le(a, b, field) && key_le(b, a, field),
    ensures
        insert_sorted(x, s, field).filter(p) == if p(x) {
            s.filter(p).push(x)
        } else {
            s.filter(p)
        },
    decreases s.len(),
{
    reveal_with_fuel(Seq::filter, 2);
    let r = insert_sorted(x, s, field);
    if s.len() == 0 {
        assert(r.drop_last() =~= Seq::<TaskView>::empty());
        if p(x) {
            assert(s.filter(p).push(x) =~= seq![x]);
        }
    } else if key_le(s.last(), x, field) {
        assert(r.drop_last() =~= s);
        assert(r.filter(p) == if p(x) {
            s.filter(p).push(x)
        } else {
            s.filter(p)
        });
    } else {
        assert(sorted_by(s.drop_last(), field)) by {
            assert(forall|i: int, j: int|
                0 <= i < j < s.drop_last().len() ==> s.drop_last()[i] == s[i]
                    && s.drop_last()[j] == s[j]);
        }
        lemma_insert_sorted_filter(x, s.drop_last(), field, p);
        let q = insert_sorted(x, s.drop_last(), field);
        assert(r == q.push(s.last()));
        assert(r.drop_last() =~= q);
        assert(r.filter(p) == if p(s.last()) {
            q.filter(p).push(s.last())
        } else {
            q.filter(p)
        });
        if p(x) && p(s.last()) {
            // both in one key class would make them tie, yet the insertion
            // branch says the last element does not sort before `x`
            assert(key_le(s.last(), x, field));
            assert(false);
        }
        if p(x) {
            assert(!p(s.last()));
            assert(s.filter(p) == s.drop_last().filter(p));
        } else {
            assert(s.filter(p) == if p(s.last()) {
                s.drop_last().filter(p).push(s.last())
            } else {
                s.drop_last().filter(p)
            });
        }
    }
}

/// Stability: among records whose keys tie, the ascending sort preserves
/// the original relative order — the tied subsequence comes out exactly
/// as it went in.
pub proof fn lemma_sort_by_field_stable(
    s: Seq<TaskView>,
    field: SortField,
    p: spec_fn(TaskView) -> bool,
)
    requires
        forall|a: TaskView, b: TaskView|
            #[trigger] p(a) && key_le(a, b, field) && key_le(b, a, field) ==> #[trigger] p(b),
        forall|a: TaskView, b: TaskView|
            #[trigger] p(a) && #[trigger] p(b) ==> key_le(a, b, field) && key_le(b, a, field),
    ensures
        sort_by_field(s, field).filter(p) == s.filter(p),
    decreases s.len(),
{
    reveal_with_fuel(Seq::filter, 2);
    if s.len() > 0 {
        lemma_sort_by_field_stable(s.drop_last(), field, p);
        lemma_sort_by_field_sorted(s.drop_last(), field);
        lemma_insert_sorted_filter(s.last(), sort_by_field(s.drop_last(), field), field, p);
        assert(s.filter(p) == if p(s.last()) {
            s.drop_last().filter(p).push(s.last())
        } else {
            s.drop_last().filter(p)
        });
    }
}

/// Sorting an already-sorted sequence leaves it unchanged.
pub proof fn lemma_sort_of_sorted(s: Seq<TaskView>, field: SortField)
    requires
        sorted_by(s, field),
    ensures
        sort_by_field(s, field) == s,
    decreases s.len(),
{
    if s.len() > 0 {
        assert(sorted_by(s.drop_last(), field)) by {
            assert(forall|i: int, j: int|
                0 <= i < j < s.drop_last().len() ==> s.drop_last()[i] == s[i]
                    && s.drop_last()[j] == s[j]);
        }
        lemma_sort_of_sorted(s.drop_last(), field);
        let q = s.drop_last();
        if q.len() == 0 {
            assert(insert_sorted(s.last(), q, field) =~= s);
        } else {
            assert(q.last() == s[s.len() - 2]);
            assert(key_le(q.last(), s.last(), field));
            assert(q.push(s.last()) =~= s);
        }
    }
}

/// Toggling the direction on an already-sorted list yields the exact
/// mirror image of the ascending order, ties included.
pub proof fn lemma_toggle_order_reverses(s: Seq<TaskView>, field: SortField)
    ensures
        sorted_view(sorted_view(s, field, SortOrder::Ascending), field, SortOrder::Descending)
            == sorted_view(s, field, SortOrder::Ascending).reverse(),
{
    lemma_sort_by_field_sorted(s, field);
    lemma_sort_of_sorted(sort_by_field(s, field), field);
}

/// If `x` sorts after everything at or past `pos` and not before the
/// element just before `pos`, then inserting it lands it exactly at `pos`.
proof fn lemma_insert_sorted_at(x: TaskView, s: Seq<TaskView>, field: SortField, pos: int)
    requires
        0 <= pos <= s.len(),
        forall|m: int| pos <= m < s.len() ==> !key_le(#[trigger] s[m], x, field),
        pos > 0 ==> key_le(s[pos - 1], x, field),
    ensures
        insert_sorted(x, s, field) == s.insert(pos, x),
    decreases s.len(),
{
    if s.len() == 0 {
        assert(insert_sorted(x, s, field) =~= s.insert(0, x));
    } else if key_le(s.last(), x, field) {
        assert(pos == s.len());
        assert(s.push(x) =~= s.insert(pos, x));
    } else {
        assert(pos < s.len());
        let q = s.drop_last();
        assert(forall|m: int| pos <= m < q.len() ==> q[m] == s[m]);
        if pos > 0 {
            assert(q[pos - 1] == s[pos - 1]);
        }
        lemma_insert_sorted_at(x, q, field, pos);
        assert(insert_sorted(x, q, field).push(s.last()) =~= s.insert(pos, x));
    }
}

/// Sorts the list in place by the chosen field: a stable ascending sort,
/// then a wholesale reversal when descending order is asked for.
pub fn sort_tasks(tasks: &mut Vec<Task>, field: &SortField, order: &SortOrder)
    ensures
        views_of(final(tasks)@) == sorted_view(views_of(old(tasks)@), *field, *order),
{
    let ghost orig: Seq<Task> = tasks@;
    let mut result: Vec<Task> = Vec::new();
    let ghost mut k: int = 0;
    proof {
        assert(orig.take(0) =~= Seq::<Task>::empty());
        assert(views_of(orig.take(0)) =~= Seq::<TaskView>::empty());
        assert(views_of(result@) =~= sort_by_field(views_of(orig.take(0)), *field));
        assert(tasks@ =~= orig.skip(0));
    }
    while tasks.len() > 0
        invariant
            0 <= k,
            k + tasks@.len() == orig.len(),
            tasks@ == orig.skip(k),
            views_of(result@) == sort_by_field(views_of(orig.take(k)), *field),
        decreases tasks@.len(),
    {
        let t = tasks.remove(0);
        proof {
            assert(t == orig.skip(k)[0]);
            assert(t == orig[k]);
            assert(tasks@ =~= orig.skip(k + 1));
        }
        let ghost before = views_of(result@);
        let mut pos: usize = result.len();
        proof {
            assert(before.len() == result@.len());
        }
        while pos > 0 && !key_le_tasks(&result[pos - 1], &t, field)
            invariant
                0 <= pos <= result@.len(),
                before == views_of(result@),
                forall|m: int|
                    pos <= m < before.len() ==> !key_le(#[trigger] before[m], t@, *field),
            decreases pos,
        {
            proof {
                assert(before[pos - 1] == result@[pos - 1]@);
            }
            pos = pos - 1;
        }
        proof {
            if pos > 0 {
                assert(before[pos - 1] == result@[pos - 1]@);
            }
            lemma_insert_sorted_at(t@, before, *field, pos as int);
        }
        result.insert(pos, t);
        proof {
            assert(views_of(result@) =~= before.insert(pos as int, t@));
            let v1 = views_of(orig.take(k + 1));
            assert(v1.len() == k + 1);
            assert(v1.last() == orig.take(k + 1)[k]@);
            assert(orig.take(k + 1)[k] == orig[k]);
            assert(v1.drop_last() =~= views_of(orig.take(k)));
            assert(sort_by_field(v1, *field) == insert_sorted(
                t@,
                sort_by_field(views_of(orig.take(k)), *field),
                *field,
            ));
            k = k + 1;
        }
    }
    proof {
        assert(orig.take(orig.len() as int) =~= orig);
    }
    match order {
        SortOrder::Ascending => {
            *tasks = result;
        },
        SortOrder::Descending => {
            let ghost all: Seq<TaskView> = views_of(result@);
            let mut rev: Vec<Task> = Vec::new();
            proof {
                assert(views_of(rev@) =~= all.skip(all.len() as int).reverse());
                assert(views_of(result@) =~= all.take(all.len() as int));
            }
            while result.len() > 0
                invariant
                    result@.len() <= all.len(),
                    views_of(result@) == all.take(result@.len() as int),
                    views_of(rev@) == all.skip(result@.len() as int).reverse(),
                decreases result@.len(),
            {
                let ghost m = result@.len() as int;
                let x = result.pop().unwrap();
                proof {
                    assert(x@ == all.take(m)[m - 1]);
                    assert(views_of(result@) =~= all.take(m - 1));
                    assert(views_of(rev@.push(x)) =~= views_of(rev@).push(all[m - 1]));
                    assert(all.skip(m - 1).reverse() =~= all.skip(m).reverse().push(all[m - 1]));
                }
                rev.push(x);
            }
            proof {
                assert(all.skip(0) =~= all);
            }
            *tasks = rev;
        },
    }
}

/// The sort-control decision when a column heading is chosen: choosing
/// the current field flips the direction; choosing another field selects
/// it in ascending order.
pub fn toggle_sort(current_field: &SortField, current_order: &SortOrder, chosen: &SortField) -> (r:
    (SortField, SortOrder))
    ensures
        r.0 == *chosen,
        *current_field == *chosen ==> r.1 == (match *current_order {
            SortOrder::Ascending => SortOrder::Descending,
            SortOrder::Descending => SortOrder::Ascending,
        }),
        *current_field != *chosen ==> r.1 == SortOrder::Ascending,
{
    if *current_field == *chosen {
        let next = match current_order {
            SortOrder::Ascending => SortOrder::Descending,
            SortOrder::Descending => SortOrder::Ascending,
        };
        (*chosen, next)
    } else {
        (*chosen, SortOrder::Ascending)
    }
}

} // verus!
