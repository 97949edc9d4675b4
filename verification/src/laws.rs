use vstd::prelude::*;
use crate::calendar::shifted_day;
use crate::claims::{
    add_completed, claim_footer, claim_one, claim_result, claim_upto, names_after, pass_result,
    set_name_reply, ClaimState,
};
use crate::model::{
    first_label_index, label_present, last_label_index, lemma_first_label_index,
    lemma_last_label_index, lemma_user_index, queue_holds, user_index, BoardView, QueTask, TaskView,
};
use crate::parse::{
    digits_value, is_digit, is_white_space, parse_usize, scan_words, split_whitespace, task_indexes,
    unsigned_digits, leading_numbers,
};
use crate::report::{
    completed_lines, completed_on, done_lines, name_of, notification_text, score_lines, task_lines, task_points,
    tasks_on,
};
use crate::schedule::{
    checked_queue, fill_step, fill_upto, filled_queue, lemma_refresh_upto_shape, refresh_entry,
    refresh_upto, refreshed,
};
use crate::text::{decimal, digit_char, nat_decimal};
use crate::claims::no_claim_reply;

verus! {

/// No two tasks on the list share a label.
pub open spec fn distinct_labels(s: Seq<TaskView>) -> bool {
    forall|i: int, j: int| 0 <= i < s.len() && 0 <= j < s.len() && i != j ==> #[trigger] s[i].label != #[trigger] s[j].label
}

// ----------------------------------------------------------------------
// Refreshing

proof fn lemma_refresh_upto_distinct(
    all: Seq<TaskView>,
    today: int,
    current: Seq<TaskView>,
    queue: Seq<QueTask>,
    k: nat,
)
    requires
        k <= queue.len(),
        distinct_labels(current),
        forall|i: int| 0 <= i < queue.len() ==> #[trigger] queue[i].task_index < all.len(),
    ensures
        distinct_labels(refresh_upto(all, today, current, queue, k).0),
    decreases k,
{
    if k > 0 {
        lemma_refresh_upto_distinct(all, today, current, queue, (k - 1) as nat);
        lemma_refresh_upto_shape(all, today, current, queue, (k - 1) as nat);
        let prev = refresh_upto(all, today, current, queue, (k - 1) as nat);
        let c = prev.0;
        let e = prev.1[k - 1];
        assert(e.task_index == queue[k - 1].task_index);
        let r = refresh_upto(all, today, current, queue, k).0;
        if today >= e.date {
            let t = all[e.task_index as int];
            if !label_present(c, t.label) {
                assert(r == c.push(t));
                assert forall|i: int, j: int| 0 <= i < r.len() && 0 <= j < r.len() && i != j implies #[trigger] r[i].label != #[trigger] r[j].label by {
                    if i < c.len() && j < c.len() {
                        assert(r[i] == c[i] && r[j] == c[j]);
                    } else if i < c.len() {
                        assert(r[i] == c[i]);
                        assert(r[j] == t);
                    } else {
                        assert(r[j] == c[j]);
                        assert(r[i] == t);
                    }
                }
            }
        }
    }
}

/// Refreshing never puts a second task with the same label on the list: a
/// list without repeated labels keeps none.
pub proof fn law_refresh_keeps_labels_distinct(b: BoardView, today: int)
    requires
        b.wf(),
        distinct_labels(b.current),
    ensures
        distinct_labels(refreshed(b, today).current),
{
    let q = checked_queue(b.all, b.queue, today);
    lemma_checked_queue_wf(b, today);
    lemma_refresh_upto_distinct(b.all, today, b.current, q, q.len());
}

proof fn lemma_checked_queue_wf(b: BoardView, today: int)
    requires
        forall|i: int| 0 <= i < b.queue.len() ==> #[trigger] b.queue[i].task_index < b.all.len(),
    ensures
        forall|i: int|
            0 <= i < checked_queue(b.all, b.queue, today).len() ==> #[trigger] checked_queue(
                b.all,
                b.queue,
                today,
            )[i].task_index < b.all.len(),
        b.queue.len() <= checked_queue(b.all, b.queue, today).len(),
        checked_queue(b.all, b.queue, today).take(b.queue.len() as int) == b.queue,
{
    lemma_fill_upto_grows(b.all, b.queue, shifted_day(today, -1), b.all.len());
    assert(b.queue.take(b.queue.len() as int) =~= b.queue);
}

proof fn lemma_fill_upto_grows(all: Seq<TaskView>, queue: Seq<QueTask>, yesterday: Option<i32>, k: nat)
    requires
        k <= all.len(),
        forall|i: int| 0 <= i < queue.len() ==> #[trigger] queue[i].task_index < all.len(),
    ensures
        queue.len() <= fill_upto(all, queue, yesterday, k).len(),
        fill_upto(all, queue, yesterday, k).take(queue.len() as int) == queue,
        forall|i: int|
            0 <= i < fill_upto(all, queue, yesterday, k).len() ==> #[trigger] fill_upto(
                all,
                queue,
                yesterday,
                k,
            )[i].task_index < all.len(),
    decreases k,
{
    if k > 0 {
        lemma_fill_upto_grows(all, queue, yesterday, (k - 1) as nat);
        lemma_first_label_index(all, all[k - 1].label);
        let prev = fill_upto(all, queue, yesterday, (k - 1) as nat);
        let r = fill_upto(all, queue, yesterday, k);
        assert(r == fill_step(all, prev, yesterday, all[k - 1]));
        if r != prev {
            assert(r.take(queue.len() as int) =~= prev.take(queue.len() as int));
        }
        assert forall|i: int| 0 <= i < r.len() implies #[trigger] r[i].task_index < all.len() by {
            if i < prev.len() {
                assert(r[i] == prev[i]);
            }
        }
    }
}

proof fn lemma_refresh_upto_grows(
    all: Seq<TaskView>,
    today: int,
    current: Seq<TaskView>,
    queue: Seq<QueTask>,
    k: nat,
    m: nat,
)
    requires
        m <= k <= queue.len(),
    ensures
        forall|l: Seq<char>|
            label_present(refresh_upto(all, today, current, queue, m).0, l) ==> #[trigger] label_present(
                refresh_upto(all, today, current, queue, k).0,
                l,
            ),
    decreases k,
{
    if m < k {
        lemma_refresh_upto_grows(all, today, current, queue, (k - 1) as nat, m);
        let prev = refresh_upto(all, today, current, queue, (k - 1) as nat).0;
        let r = refresh_upto(all, today, current, queue, k).0;
        assert forall|l: Seq<char>| label_present(prev, l) implies #[trigger] label_present(r, l) by {
            let w = choose|i: int| 0 <= i < prev.len() && #[trigger] prev[i].label == l;
            assert(r[w] == prev[w]);
        }
    }
}

/// After a refresh on day `today`, every queue entry that had fallen due by
/// then has its task's label on the list.
pub proof fn law_refresh_lists_due_tasks(b: BoardView, today: int)
    requires
        b.wf(),
    ensures
        forall|k: int|
            0 <= k < checked_queue(b.all, b.queue, today).len() && today >= #[trigger] checked_queue(
                b.all,
                b.queue,
                today,
            )[k].date ==> label_present(
                refreshed(b, today).current,
                b.all[checked_queue(b.all, b.queue, today)[k].task_index as int].label,
            ),
{
    let q = checked_queue(b.all, b.queue, today);
    lemma_checked_queue_wf(b, today);
    assert forall|k: int| 0 <= k < q.len() && today >= #[trigger] q[k].date implies label_present(
        refreshed(b, today).current,
        b.all[q[k].task_index as int].label,
    ) by {
        lemma_refresh_upto_shape(b.all, today, b.current, q, k as nat);
        let prev = refresh_upto(b.all, today, b.current, q, k as nat);
        assert(prev.1[k] == q[k]);
        let t = b.all[q[k].task_index as int];
        let next = refresh_upto(b.all, today, b.current, q, (k + 1) as nat);
        assert(next == refresh_entry(b.all, today, prev, k));
        if label_present(prev.0, t.label) {
            let w = choose|i: int| 0 <= i < prev.0.len() && #[trigger] prev.0[i].label == t.label;
            assert(next.0[w] == prev.0[w]);
        } else {
            assert(next.0[prev.0.len() as int] == t);
        }
        assert(label_present(next.0, t.label));
        lemma_refresh_upto_grows(b.all, today, b.current, q, q.len(), (k + 1) as nat);
    }
}

// ----------------------------------------------------------------------
// Filling the queue

/// Filling keeps every entry the queue had, and afterwards the first task
/// with each label is queued, for every task whose next date (its interval
/// after yesterday) is a representable date.
pub proof fn law_fill_covers_tasks(all: Seq<TaskView>, queue: Seq<QueTask>, today: int)
    requires
        all.len() <= usize::MAX,
        forall|i: int| 0 <= i < queue.len() ==> #[trigger] queue[i].task_index < all.len(),
    ensures
        filled_queue(all, queue, today).take(queue.len() as int) == queue,
        forall|j: int|
            0 <= j < all.len() && shifted_day(today, -1) is Some && shifted_day(
                shifted_day(today, -1).unwrap() as int,
                (#[trigger] all[j]).day_interval as int,
            ) is Some ==> queue_holds(
                filled_queue(all, queue, today),
                first_label_index(all, all[j].label).unwrap(),
            ),
{
    lemma_fill_upto_grows(all, queue, shifted_day(today, -1), all.len());
    lemma_fill_upto_covers(all, queue, shifted_day(today, -1), all.len());
}

proof fn lemma_fill_upto_covers(all: Seq<TaskView>, queue: Seq<QueTask>, yesterday: Option<i32>, k: nat)
    requires
        all.len() <= usize::MAX,
        k <= all.len(),
    ensures
        forall|j: int|
            0 <= j < k && yesterday is Some && shifted_day(
                yesterday.unwrap() as int,
                (#[trigger] all[j]).day_interval as int,
            ) is Some ==> queue_holds(
                fill_upto(all, queue, yesterday, k),
                first_label_index(all, all[j].label).unwrap(),
            ),
    decreases k,
{
    if k > 0 {
        lemma_fill_upto_covers(all, queue, yesterday, (k - 1) as nat);
        let prev = fill_upto(all, queue, yesterday, (k - 1) as nat);
        let r = fill_upto(all, queue, yesterday, k);
        assert(r == fill_step(all, prev, yesterday, all[k - 1]));
        assert forall|j: int|
            0 <= j < k && yesterday is Some && shifted_day(
                yesterday.unwrap() as int,
                (#[trigger] all[j]).day_interval as int,
            ) is Some implies queue_holds(r, first_label_index(all, all[j].label).unwrap()) by {
            lemma_first_label_index(all, all[j].label);
            let index = first_label_index(all, all[j].label).unwrap();
            if j < k - 1 {
                let w = choose|i: int| 0 <= i < prev.len() && #[trigger] prev[i].task_index == index;
                assert(r[w] == prev[w]);
            } else {
                if queue_holds(prev, index) {
                    let w = choose|i: int| 0 <= i < prev.len() && #[trigger] prev[i].task_index == index;
                    assert(r[w] == prev[w]);
                } else {
                    assert(r[prev.len() as int].task_index == index as usize);
                }
            }
        }
    }
}

/// No two queue entries refer to the same task.
pub open spec fn distinct_indexes(q: Seq<QueTask>) -> bool {
    forall|i: int, j: int| 0 <= i < q.len() && 0 <= j < q.len() && i != j ==> #[trigger] q[i].task_index != #[trigger] q[j].task_index
}

proof fn lemma_fill_upto_distinct(all: Seq<TaskView>, queue: Seq<QueTask>, yesterday: Option<i32>, k: nat)
    requires
        k <= all.len(),
        all.len() <= usize::MAX,
        distinct_indexes(queue),
    ensures
        distinct_indexes(fill_upto(all, queue, yesterday, k)),
    decreases k,
{
    if k > 0 {
        lemma_fill_upto_distinct(all, queue, yesterday, (k - 1) as nat);
        let prev = fill_upto(all, queue, yesterday, (k - 1) as nat);
        let r = fill_upto(all, queue, yesterday, k);
        assert(r == fill_step(all, prev, yesterday, all[k - 1]));
        if r.len() > prev.len() {
            let n = prev.len() as int;
            lemma_first_label_index(all, all[k - 1].label);
            let index = first_label_index(all, all[k - 1].label).unwrap();
            assert(0 <= index < all.len());
            assert(!queue_holds(prev, index));
            assert(r[n].task_index == index as usize);
            assert forall|i: int, j: int| 0 <= i < r.len() && 0 <= j < r.len() && i != j implies #[trigger] r[i].task_index != #[trigger] r[j].task_index by {
                if i < n && j < n {
                    assert(r[i] == prev[i] && r[j] == prev[j]);
                } else if i < n {
                    assert(r[i] == prev[i]);
                    assert(prev[i].task_index != index);
                } else {
                    assert(r[j] == prev[j]);
                    assert(prev[j].task_index != index);
                }
            }
        }
    }
}

/// Filling never queues a task twice: a queue in which no task occurs twice
/// stays so.
pub proof fn law_fill_adds_no_duplicates(all: Seq<TaskView>, queue: Seq<QueTask>, today: int)
    requires
        all.len() <= usize::MAX,
        distinct_indexes(queue),
    ensures
        distinct_indexes(filled_queue(all, queue, today)),
{
    lemma_fill_upto_distinct(all, queue, shifted_day(today, -1), all.len());
}

/// Refreshing never adds, drops or retargets a queue entry: the refreshed
/// queue has the entries of the queue it started from (filled first when
/// its length was off), each still referring to the same task.
pub proof fn law_refresh_keeps_queue_entries(b: BoardView, today: int)
    requires
        b.wf(),
    ensures
        refreshed(b, today).queue.len() == checked_queue(b.all, b.queue, today).len(),
        forall|i: int|
            0 <= i < refreshed(b, today).queue.len() ==> (#[trigger] refreshed(b, today).queue[i]).task_index
                == checked_queue(b.all, b.queue, today)[i].task_index,
{
    let q = checked_queue(b.all, b.queue, today);
    lemma_refresh_upto_shape(b.all, today, b.current, q, q.len());
}

// ----------------------------------------------------------------------
// Names

/// The name `set_name` answers for a sender is the name `get_name` shows for
/// them afterwards.
pub proof fn law_set_name_then_get_name(names: Seq<(u64, Seq<char>)>, id: u64, first: Seq<char>)
    ensures
        name_of(names_after(names, Some((id, first))), id) == set_name_reply(names, Some((id, first))),
{
    lemma_user_index(names, id);
    let r = names_after(names, Some((id, first)));
    lemma_user_index(r, id);
    if user_index(names, id) is None {
        match user_index(r, id) {
            Some(i) => {
                if i < names.len() {
                    assert(r[i] == names[i]);
                }
            },
            None => {
                assert(r[names.len() as int].0 == id);
            },
        }
    }
}

/// A name once kept is never replaced.
pub proof fn law_set_name_keeps_kept_name(names: Seq<(u64, Seq<char>)>, sender: Option<(u64, Seq<char>)>, id: u64)
    requires
        user_index(names, id) is Some,
    ensures
        name_of(names_after(names, sender), id) == name_of(names, id),
{
    lemma_user_index(names, id);
    let r = names_after(names, sender);
    lemma_user_index(r, id);
    if r != names {
        let k = user_index(names, id).unwrap();
        assert(r[k] == names[k]);
        match user_index(r, id) {
            Some(i) => {
                if i < names.len() {
                    assert(r[i] == names[i]);
                }
            },
            None => {},
        }
    }
}

// ----------------------------------------------------------------------
// Claims and passes

/// The points a user has: the points of the tasks in their record.
pub open spec fn user_score(all: Seq<TaskView>, c: Seq<(u64, Seq<QueTask>)>, user: u64) -> int {
    match user_index(c, user) {
        Some(i) => task_points(all, c[i].1),
        None => 0,
    }
}

proof fn lemma_add_completed_score(all: Seq<TaskView>, c: Seq<(u64, Seq<QueTask>)>, user: u64, done: QueTask, other: u64)
    requires
        other != user,
    ensures
        user_score(all, add_completed(c, user, done), user) == user_score(all, c, user)
            + all[done.task_index as int].points,
        user_score(all, add_completed(c, user, done), other) == user_score(all, c, other),
{
    let c2 = add_completed(c, user, done);
    lemma_user_index(c, user);
    lemma_user_index(c, other);
    lemma_user_index(c2, user);
    lemma_user_index(c2, other);
    let k: int = match user_index(c, user) {
        Some(k) => k,
        None => c.len() as int,
    };
    assert(c2.len() == c.len() || c2.len() == c.len() + 1);
    assert(c2[k].0 == user);
    assert forall|i: int| 0 <= i < c2.len() && i != k implies #[trigger] c2[i] == c[i] by {}
    if k < c.len() {
        assert(c2[k].1 == c[k].1.push(done));
    } else {
        assert(c2[k].1 == seq![done]);
    }
    assert(c2[k].1.drop_last() =~= (if k < c.len() { c[k].1 } else { Seq::<QueTask>::empty() }));
    assert(c2[k].1.last() == done);
    assert(task_points(all, Seq::<QueTask>::empty()) == 0);
    assert(user_index(c2, user) == Some(k));
    match user_index(c, other) {
        Some(o) => {
            assert(o != k);
            assert(c2[o] == c[o]);
            match user_index(c2, other) {
                Some(i) => {
                    if i != k {
                        assert(c2[i] == c[i]);
                    }
                },
                None => {},
            }
            assert(user_index(c2, other) == Some(o));
        },
        None => {
            match user_index(c2, other) {
                Some(i) => {
                    if i != k {
                        assert(c2[i] == c[i]);
                    }
                },
                None => {},
            }
            assert(user_index(c2, other) is None);
        },
    }
}

/// Claiming a task that is on the list, with a sender, takes one task off
/// the list and awards the sender the claimed task's points; every other
/// user's score stays as it was.  Claiming one that is not on the list
/// changes neither.
pub proof fn law_claim_awards_points(
    all: Seq<TaskView>,
    today: i32,
    user: u64,
    first: Seq<char>,
    sep: Seq<char>,
    st: ClaimState,
    id: usize,
    other: u64,
)
    requires
        id < all.len(),
        other != user,
    ensures
        ({
            let r = claim_one(all, today, Some((user, first)), sep, st, id);
            if label_present(st.current, all[id as int].label) {
                &&& r.current.len() == st.current.len() - 1
                &&& user_score(all, r.completed, user) == user_score(all, st.completed, user)
                    + all[id as int].points
                &&& user_score(all, r.completed, other) == user_score(all, st.completed, other)
            } else {
                &&& r.current == st.current
                &&& r.completed == st.completed
            }
        }),
{
    lemma_last_label_index(st.current, all[id as int].label);
    let done = QueTask { date: today, task_index: id };
    lemma_add_completed_score(all, st.completed, user, done, other);
    if label_present(st.current, all[id as int].label) {
        let w = choose|i: int| 0 <= i < st.current.len() && #[trigger] st.current[i].label == all[id as int].label;
        assert(st.current[w].label == all[id as int].label);
    }
}

/// Passing a task takes it off the list: when no two tasks on the list
/// share a label, afterwards none has the passed task's label, and the list
/// still repeats no label.
pub proof fn law_pass_removes_label(b: BoardView, index: int)
    requires
        0 <= index < b.all.len(),
        distinct_labels(b.current),
    ensures
        !label_present(pass_result(b, index).0, b.all[index].label),
        distinct_labels(pass_result(b, index).0),
{
    let label = b.all[index].label;
    lemma_last_label_index(b.current, label);
    let r = pass_result(b, index).0;
    match last_label_index(b.current, label) {
        Some(k) => {
            assert forall|i: int| 0 <= i < r.len() implies #[trigger] r[i].label != label by {
                if i < k {
                    assert(r[i] == b.current[i]);
                } else {
                    assert(r[i] == b.current[i + 1]);
                }
            }
            assert forall|i: int, j: int| 0 <= i < r.len() && 0 <= j < r.len() && i != j implies #[trigger] r[i].label != #[trigger] r[j].label by {
                let i0 = if i < k { i } else { i + 1 };
                let j0 = if j < k { j } else { j + 1 };
                assert(r[i] == b.current[i0]);
                assert(r[j] == b.current[j0]);
            }
        },
        None => {},
    }
}

proof fn lemma_remove_distinct(s: Seq<TaskView>, k: int)
    requires
        0 <= k < s.len(),
        distinct_labels(s),
    ensures
        distinct_labels(s.remove(k)),
{
    let r = s.remove(k);
    assert forall|i: int, j: int| 0 <= i < r.len() && 0 <= j < r.len() && i != j implies #[trigger] r[i].label != #[trigger] r[j].label by {
        let i0 = if i < k { i } else { i + 1 };
        let j0 = if j < k { j } else { j + 1 };
        assert(r[i] == s[i0]);
        assert(r[j] == s[j0]);
    }
}

proof fn lemma_claim_upto_distinct(
    all: Seq<TaskView>,
    today: i32,
    sender: Option<(u64, Seq<char>)>,
    sep: Seq<char>,
    st: ClaimState,
    ids: Seq<usize>,
    k: nat,
)
    requires
        k <= ids.len(),
        distinct_labels(st.current),
    ensures
        distinct_labels(claim_upto(all, today, sender, sep, st, ids, k).current),
    decreases k,
{
    if k > 0 {
        lemma_claim_upto_distinct(all, today, sender, sep, st, ids, (k - 1) as nat);
        let prev = claim_upto(all, today, sender, sep, st, ids, (k - 1) as nat);
        let label = all[ids[k - 1] as int].label;
        lemma_last_label_index(prev.current, label);
        match last_label_index(prev.current, label) {
            Some(i) => lemma_remove_distinct(prev.current, i),
            None => {},
        }
    }
}

/// A claim never leaves two tasks with the same label on the list: a list
/// without repeated labels keeps none.
pub proof fn law_claim_keeps_labels_distinct(
    b: BoardView,
    sender: Option<(u64, Seq<char>)>,
    text: Seq<char>,
    today: i32,
)
    requires
        b.wf(),
        distinct_labels(b.current),
    ensures
        distinct_labels(claim_result(b, sender, text, today).0.current),
{
    let ids = task_indexes(text);
    if ids.len() > 0 {
        let sep = if ids.len() > 1 {
            "\n"@
        } else {
            seq![]
        };
        let st0 = ClaimState { current: b.current, completed: b.completed, names: b.names, out: claim_footer() };
        lemma_claim_upto_distinct(b.all, today, sender, sep, st0, ids, ids.len());
        let st = claim_upto(b.all, today, sender, sep, st0, ids, ids.len());
        let b2 = BoardView { all: b.all, current: st.current, queue: b.queue, completed: st.completed, names: st.names };
        lemma_checked_queue_wf(b2, today as int);
        let q = checked_queue(b2.all, b2.queue, today as int);
        lemma_refresh_upto_distinct(b2.all, today as int, b2.current, q, q.len());
    }
}

// ----------------------------------------------------------------------
// Task numbers

proof fn lemma_digit_char(d: nat)
    requires
        d < 10,
    ensures
        digit_char(d) as nat == d + 48,
        is_digit(digit_char(d)),
        !is_white_space(digit_char(d)),
{
}

proof fn lemma_decimal_digits(n: nat)
    ensures
        nat_decimal(n).len() > 0,
        forall|i: int| 0 <= i < nat_decimal(n).len() ==> is_digit(#[trigger] nat_decimal(n)[i]),
        forall|i: int| 0 <= i < nat_decimal(n).len() ==> !is_white_space(#[trigger] nat_decimal(n)[i]),
        digits_value(nat_decimal(n)) == n,
    decreases n,
{
    lemma_digit_char(n % 10);
    if n < 10 {
        assert(nat_decimal(n).drop_last() =~= Seq::<char>::empty());
        assert(digits_value(Seq::<char>::empty()) == 0);
        assert(digits_value(nat_decimal(n)) == digits_value(nat_decimal(n).drop_last()) * 10 + (
        nat_decimal(n).last() as nat - 48) as nat);
    } else {
        lemma_decimal_digits(n / 10);
        let d = nat_decimal(n);
        let p = nat_decimal(n / 10);
        assert(d.drop_last() =~= p);
        assert(d.last() == digit_char(n % 10));
        assert(digits_value(d) == digits_value(p) * 10 + (d.last() as nat - 48) as nat);
        assert((n / 10) * 10 + n % 10 == n);
        assert forall|i: int| 0 <= i < d.len() implies is_digit(#[trigger] d[i]) && !is_white_space(d[i]) by {
            if i < p.len() {
                assert(d[i] == p[i]);
            }
        }
    }
}

proof fn lemma_scan_no_space(s: Seq<char>)
    requires
        forall|i: int| 0 <= i < s.len() ==> !is_white_space(#[trigger] s[i]),
    ensures
        scan_words(s) == (Seq::<Seq<char>>::empty(), s),
    decreases s.len(),
{
    if s.len() > 0 {
        let p = s.drop_last();
        assert forall|i: int| 0 <= i < p.len() implies !is_white_space(#[trigger] p[i]) by {
            assert(p[i] == s[i]);
        }
        lemma_scan_no_space(p);
        assert(p.push(s.last()) =~= s);
    }
}

/// The number shown for a task, typed back in a claim message, names that
/// task: the decimal rendering of any `usize` reads back as exactly that
/// number.
pub proof fn law_task_number_reads_back(n: usize)
    ensures
        parse_usize(nat_decimal(n as nat)) == Some(n),
        task_indexes(nat_decimal(n as nat)) == seq![n],
{
    let d = nat_decimal(n as nat);
    lemma_decimal_digits(n as nat);
    assert(is_digit(d[0]));
    assert(unsigned_digits(d) == d);
    lemma_scan_no_space(d);
    assert(split_whitespace(d) =~= seq![d]);
    assert(seq![d].drop_first() =~= Seq::<Seq<char>>::empty());
    assert(leading_numbers(Seq::<Seq<char>>::empty()) == Seq::<usize>::empty());
    assert(leading_numbers(seq![d]) == seq![n] + leading_numbers(seq![d].drop_first()));
    assert(seq![n] + Seq::<usize>::empty() =~= seq![n]);
}

// ----------------------------------------------------------------------
// Repeating operations

proof fn lemma_refresh_upto_idle(
    all: Seq<TaskView>,
    today: int,
    current: Seq<TaskView>,
    queue: Seq<QueTask>,
    k: nat,
)
    requires
        k <= queue.len(),
        forall|i: int| 0 <= i < queue.len() ==> #[trigger] queue[i].date > today,
    ensures
        refresh_upto(all, today, current, queue, k) == (current, queue),
    decreases k,
{
    if k > 0 {
        lemma_refresh_upto_idle(all, today, current, queue, (k - 1) as nat);
        assert(queue[k - 1].date > today);
    }
}

/// A refresh with nothing due changes nothing: when the queue holds one
/// entry per task and every entry falls due after `today`, refreshing on
/// `today` leaves the board as it is.  (So a second refresh on the same
/// day, once the first has moved every due entry past that day, is idle.)
pub proof fn law_refresh_idle_when_nothing_due(b: BoardView, today: int)
    requires
        b.queue.len() == b.all.len(),
        forall|i: int| 0 <= i < b.queue.len() ==> #[trigger] b.queue[i].date > today,
    ensures
        refreshed(b, today) == b,
{
    lemma_refresh_upto_idle(b.all, today, b.current, b.queue, b.queue.len());
}

proof fn lemma_fill_upto_idle(all: Seq<TaskView>, queue: Seq<QueTask>, yesterday: Option<i32>, k: nat)
    requires
        k <= all.len(),
        forall|j: int|
            0 <= j < all.len() && yesterday is Some && shifted_day(
                yesterday.unwrap() as int,
                (#[trigger] all[j]).day_interval as int,
            ) is Some ==> queue_holds(queue, first_label_index(all, all[j].label).unwrap()),
    ensures
        fill_upto(all, queue, yesterday, k) == queue,
    decreases k,
{
    if k > 0 {
        lemma_fill_upto_idle(all, queue, yesterday, (k - 1) as nat);
        lemma_first_label_index(all, all[k - 1].label);
        assert(fill_upto(all, queue, yesterday, k) == fill_step(all, queue, yesterday, all[k - 1]));
    }
}

/// Filling twice on the same day is filling once: the second fill appends
/// nothing.
pub proof fn law_fill_twice_is_fill_once(all: Seq<TaskView>, queue: Seq<QueTask>, today: int)
    requires
        all.len() <= usize::MAX,
    ensures
        filled_queue(all, filled_queue(all, queue, today), today) == filled_queue(all, queue, today),
{
    let y = shifted_day(today, -1);
    lemma_fill_upto_covers(all, queue, y, all.len());
    lemma_fill_upto_idle(all, filled_queue(all, queue, today), y, all.len());
}

/// A second refresh on the same day changes nothing, once the first has
/// moved every queue entry past that day.
pub proof fn law_second_refresh_same_day_is_idle(b: BoardView, today: int)
    requires
        b.all.len() <= usize::MAX,
        forall|i: int|
            0 <= i < refreshed(b, today).queue.len() ==> #[trigger] refreshed(b, today).queue[i].date > today,
    ensures
        refreshed(refreshed(b, today), today) == refreshed(b, today),
{
    let r = refreshed(b, today);
    let q0 = checked_queue(b.all, b.queue, today);
    let y = shifted_day(today, -1);
    lemma_refresh_upto_shape(b.all, today, b.current, q0, q0.len());
    if r.queue.len() != r.all.len() {
        lemma_fill_upto_covers(b.all, b.queue, y, b.all.len());
        assert forall|j: int|
            0 <= j < r.all.len() && y is Some && shifted_day(y.unwrap() as int, (#[trigger] r.all[j]).day_interval as int)
                is Some implies queue_holds(r.queue, first_label_index(r.all, r.all[j].label).unwrap()) by {
            let index = first_label_index(r.all, r.all[j].label).unwrap();
            assert(queue_holds(q0, index));
            let w = choose|i: int| 0 <= i < q0.len() && #[trigger] q0[i].task_index == index;
            assert(r.queue[w].task_index == q0[w].task_index);
        }
        lemma_fill_upto_idle(r.all, r.queue, y, r.all.len());
    }
    assert(checked_queue(r.all, r.queue, today) == r.queue);
    lemma_refresh_upto_idle(r.all, today, r.current, r.queue, r.queue.len());
}

// ----------------------------------------------------------------------
// Claim messages

/// A claim message names no task exactly when it has no word or its first
/// word is not a number; such a message changes nothing and gets the
/// "No valid tasks claimed" reply.
pub proof fn law_claim_without_number(b: BoardView, sender: Option<(u64, Seq<char>)>, text: Seq<char>, today: i32)
    ensures
        (task_indexes(text).len() == 0) == (split_whitespace(text).len() == 0 || parse_usize(
            split_whitespace(text)[0],
        ) is None),
        task_indexes(text).len() == 0 ==> claim_result(b, sender, text, today) == (b, no_claim_reply()),
{
    let w = split_whitespace(text);
    if w.len() > 0 {
        if let Some(v) = parse_usize(w[0]) {
            assert((seq![v] + leading_numbers(w.drop_first())).len() > 0);
        }
    }
}

/// A list of task numbers written out in decimal, separated by spaces.
pub open spec fn joined_numbers(ids: Seq<usize>) -> Seq<char>
    decreases ids.len(),
{
    if ids.len() == 0 {
        seq![]
    } else if ids.len() == 1 {
        nat_decimal(ids[0] as nat)
    } else {
        joined_numbers(ids.drop_last()) + seq![' '] + nat_decimal(ids.last() as nat)
    }
}

/// The words of written-out task numbers.
pub open spec fn number_words(ids: Seq<usize>) -> Seq<Seq<char>> {
    ids.map_values(|x: usize| nat_decimal(x as nat))
}

proof fn lemma_scan_append_word(s: Seq<char>, d: Seq<char>)
    requires
        forall|i: int| 0 <= i < d.len() ==> !is_white_space(#[trigger] d[i]),
    ensures
        scan_words(s + d) == (scan_words(s).0, scan_words(s).1 + d),
    decreases d.len(),
{
    if d.len() == 0 {
        assert(s + d =~= s);
        assert(scan_words(s).1 + d =~= scan_words(s).1);
    } else {
        let p = d.drop_last();
        assert forall|i: int| 0 <= i < p.len() implies !is_white_space(#[trigger] p[i]) by {
            assert(p[i] == d[i]);
        }
        lemma_scan_append_word(s, p);
        assert((s + d).drop_last() =~= s + p);
        assert((s + d).last() == d.last());
        assert(!is_white_space(d[d.len() - 1]));
        assert((scan_words(s).1 + p).push(d.last()) =~= scan_words(s).1 + d);
    }
}

proof fn lemma_scan_joined(ids: Seq<usize>)
    requires
        ids.len() >= 1,
    ensures
        scan_words(joined_numbers(ids)) == (number_words(ids.drop_last()), nat_decimal(ids.last() as nat)),
    decreases ids.len(),
{
    if ids.len() == 1 {
        let d = nat_decimal(ids[0] as nat);
        lemma_decimal_digits(ids[0] as nat);
        lemma_scan_no_space(d);
        assert(number_words(ids.drop_last()) =~= Seq::<Seq<char>>::empty());
    } else {
        let rest = ids.drop_last();
        lemma_scan_joined(rest);
        let j = joined_numbers(rest);
        let d = nat_decimal(ids.last() as nat);
        lemma_decimal_digits(ids.last() as nat);
        lemma_decimal_digits(rest.last() as nat);
        let spaced = j + seq![' '];
        assert(spaced.drop_last() =~= j);
        assert(spaced.last() == ' ');
        assert(is_white_space(' '));
        assert(scan_words(spaced) == (number_words(rest.drop_last()).push(nat_decimal(rest.last() as nat)), Seq::<char>::empty()));
        lemma_scan_append_word(spaced, d);
        assert(number_words(rest.drop_last()).push(nat_decimal(rest.last() as nat)) =~= number_words(ids.drop_last()));
        assert(Seq::<char>::empty() + d =~= d);
    }
}

proof fn lemma_leading_numbers_of_words(ids: Seq<usize>)
    ensures
        leading_numbers(number_words(ids)) == ids,
    decreases ids.len(),
{
    if ids.len() > 0 {
        law_task_number_reads_back(ids[0]);
        lemma_leading_numbers_of_words(ids.drop_first());
        assert(number_words(ids).drop_first() =~= number_words(ids.drop_first()));
        assert(number_words(ids)[0] == nat_decimal(ids[0] as nat));
        assert(seq![ids[0]] + ids.drop_first() =~= ids);
    } else {
        assert(number_words(ids) =~= Seq::<Seq<char>>::empty());
    }
}

/// Task numbers written out with spaces between them read back as exactly
/// those numbers.
pub proof fn law_numbers_read_back(ids: Seq<usize>)
    ensures
        task_indexes(joined_numbers(ids)) == ids,
{
    if ids.len() == 0 {
        assert(scan_words(Seq::<char>::empty()) == (Seq::<Seq<char>>::empty(), Seq::<char>::empty()));
        assert(split_whitespace(joined_numbers(ids)) =~= number_words(ids));
    } else {
        lemma_scan_joined(ids);
        lemma_decimal_digits(ids.last() as nat);
        assert(number_words(ids.drop_last()).push(nat_decimal(ids.last() as nat)) =~= number_words(ids));
    }
    lemma_leading_numbers_of_words(ids);
}

/// Only the leading task numbers of a claim message matter: from the first
/// word that is not a number on, the words have no effect.  The message
/// claims exactly what the numbers it starts with, written out alone, claim.
pub proof fn law_claim_reads_leading_numbers_only(
    b: BoardView,
    sender: Option<(u64, Seq<char>)>,
    text: Seq<char>,
    today: i32,
)
    ensures
        claim_result(b, sender, text, today) == claim_result(b, sender, joined_numbers(task_indexes(text)), today),
{
    law_numbers_read_back(task_indexes(text));
}

// ----------------------------------------------------------------------
// One entry per task

/// The task numbers of the queue entries, in order.
pub open spec fn entry_indexes(q: Seq<QueTask>) -> Seq<int> {
    q.map_values(|e: QueTask| e.task_index as int)
}

/// A queue in which no task occurs twice and every entry refers to one of
/// `n` tasks has at most `n` entries, and exactly `n` when every task is
/// queued; then every task is queued.
proof fn lemma_queue_pigeonhole(q: Seq<QueTask>, n: nat)
    requires
        distinct_indexes(q),
        forall|i: int| 0 <= i < q.len() ==> #[trigger] q[i].task_index < n,
    ensures
        q.len() <= n,
        (forall|i: int| 0 <= i < n ==> queue_holds(q, i)) ==> q.len() == n,
        q.len() == n ==> forall|i: int| 0 <= i < n ==> queue_holds(q, i),
{
    broadcast use vstd::seq_lib::seq_to_set_is_finite;
    let m = entry_indexes(q);
    assert(m.no_duplicates()) by {
        assert forall|i: int, j: int| 0 <= i < m.len() && 0 <= j < m.len() && i != j implies m[i] != m[j] by {
            assert(q[i].task_index != q[j].task_index);
        }
    }
    m.unique_seq_to_set();
    let set = m.to_set();
    let range = vstd::set_lib::set_int_range(0, n as int);
    vstd::set_lib::lemma_int_range(0, n as int);
    assert(set.subset_of(range)) by {
        assert forall|x: int| set.contains(x) implies range.contains(x) by {
            let i = choose|i: int| 0 <= i < m.len() && m[i] == x;
            assert(q[i].task_index < n);
        }
    }
    vstd::set_lib::lemma_len_subset(set, range);
    if forall|i: int| 0 <= i < n ==> queue_holds(q, i) {
        assert(range.subset_of(set)) by {
            assert forall|x: int| range.contains(x) implies set.contains(x) by {
                assert(queue_holds(q, x));
                let w = choose|i: int| 0 <= i < q.len() && #[trigger] q[i].task_index == x;
                assert(m[w] == x);
            }
        }
        vstd::set_lib::lemma_len_subset(range, set);
    }
    if q.len() == n {
        vstd::set_lib::lemma_subset_equality(set, range);
        assert forall|i: int| 0 <= i < n implies queue_holds(q, i) by {
            assert(range.contains(i));
            assert(set.contains(i));
            let w = choose|k: int| 0 <= k < m.len() && m[k] == i;
            assert(q[w].task_index == i);
        }
    }
}

/// When labels do not repeat, each task is its label's first task.
proof fn lemma_first_index_of_distinct(all: Seq<TaskView>, j: int)
    requires
        distinct_labels(all),
        0 <= j < all.len(),
    ensures
        first_label_index(all, all[j].label) == Some(j),
{
    lemma_first_label_index(all, all[j].label);
}

/// After `init_queue`, the queue holds exactly one entry per task, when no
/// two tasks share a label, the queue held no task twice and only known
/// tasks, and every task's next date (its interval after yesterday) is a
/// representable date.  A second `init_queue` then changes nothing.
pub proof fn law_init_queue_one_entry_per_task(all: Seq<TaskView>, queue: Seq<QueTask>, today: int)
    requires
        all.len() <= usize::MAX,
        distinct_labels(all),
        distinct_indexes(queue),
        forall|i: int| 0 <= i < queue.len() ==> #[trigger] queue[i].task_index < all.len(),
        shifted_day(today, -1) is Some,
        forall|j: int|
            0 <= j < all.len() ==> shifted_day(
                shifted_day(today, -1).unwrap() as int,
                (#[trigger] all[j]).day_interval as int,
            ) is Some,
    ensures
        checked_queue(all, queue, today).len() == all.len(),
        distinct_indexes(checked_queue(all, queue, today)),
        forall|i: int| 0 <= i < all.len() ==> queue_holds(checked_queue(all, queue, today), i),
        checked_queue(all, checked_queue(all, queue, today), today) == checked_queue(all, queue, today),
{
    let q = checked_queue(all, queue, today);
    let n = all.len();
    if queue.len() != n {
        let y = shifted_day(today, -1);
        crate::schedule::lemma_fill_upto_appends(all, queue, y, n);
        lemma_fill_upto_covers(all, queue, y, n);
        lemma_fill_upto_distinct(all, queue, y, n);
        assert forall|i: int| 0 <= i < q.len() implies #[trigger] q[i].task_index < n by {
            if i < queue.len() {
                assert(q.take(queue.len() as int)[i] == q[i]);
            }
        }
        assert forall|i: int| 0 <= i < n implies queue_holds(q, i) by {
            lemma_first_index_of_distinct(all, i);
            assert(y is Some && shifted_day(y.unwrap() as int, all[i].day_interval as int) is Some);
        }
        lemma_queue_pigeonhole(q, n);
    } else {
        lemma_queue_pigeonhole(q, n);
    }
}


// ----------------------------------------------------------------------
// Taking a task off the list

/// `i` is the last position on `s` holding a task labelled `label`.
pub open spec fn last_with_label(s: Seq<TaskView>, label: Seq<char>, i: int) -> bool {
    &&& 0 <= i < s.len()
    &&& s[i].label == label
    &&& forall|j: int| i < j < s.len() ==> #[trigger] s[j].label != label
}

/// Passing task `index` takes exactly one task off the list: when the list
/// holds its label, the last task with that label leaves and every other
/// task stays, in order, with the reply "Removed task from list"; when it
/// does not, the list stays as it is and the reply says the task was not
/// found.
pub proof fn law_pass_takes_off_one_task(b: BoardView, index: int)
    ensures
        forall|i: int|
            #[trigger] last_with_label(b.current, b.all[index].label, i) ==> pass_result(b, index).0
                == b.current.remove(i) && pass_result(b, index).1 == "Removed task from list"@,
        (forall|j: int| 0 <= j < b.current.len() ==> #[trigger] b.current[j].label != b.all[index].label)
            ==> pass_result(b, index).0 == b.current && pass_result(b, index).1
            == "Unable to claim task (can't find task)!"@,
{
    let label = b.all[index].label;
    lemma_last_label_index(b.current, label);
    assert forall|i: int| #[trigger] last_with_label(b.current, label, i) implies pass_result(b, index).0
        == b.current.remove(i) && pass_result(b, index).1 == "Removed task from list"@ by {
        let k = last_label_index(b.current, label).unwrap();
        assert(k == i);
    }
}

/// Each claim in a claim message takes exactly one task off the list: when
/// the list holds the claimed task's label, the last task with that label
/// leaves and every other task stays, in order; when it does not, the list
/// stays as it is.  On a list that repeats no label, no task with the
/// claimed label is left.
pub proof fn law_claim_takes_off_one_task(
    all: Seq<TaskView>,
    today: i32,
    sender: Option<(u64, Seq<char>)>,
    sep: Seq<char>,
    st: ClaimState,
    ids: Seq<usize>,
    k: nat,
)
    requires
        k < ids.len(),
    ensures
        ({
            let before = claim_upto(all, today, sender, sep, st, ids, k).current;
            let after = claim_upto(all, today, sender, sep, st, ids, k + 1).current;
            let label = all[ids[k as int] as int].label;
            &&& forall|i: int| #[trigger] last_with_label(before, label, i) ==> after == before.remove(i)
            &&& (forall|j: int| 0 <= j < before.len() ==> #[trigger] before[j].label != label) ==> after == before
            &&& distinct_labels(before) ==> forall|j: int| 0 <= j < after.len() ==> #[trigger] after[j].label != label
        }),
{
    let before = claim_upto(all, today, sender, sep, st, ids, k).current;
    let after = claim_upto(all, today, sender, sep, st, ids, k + 1).current;
    let label = all[ids[k as int] as int].label;
    assert(claim_upto(all, today, sender, sep, st, ids, k + 1) == claim_one(
        all,
        today,
        sender,
        sep,
        claim_upto(all, today, sender, sep, st, ids, k),
        ids[k as int],
    ));
    lemma_last_label_index(before, label);
    match last_label_index(before, label) {
        Some(m) => {
            assert(after == before.remove(m));
            assert forall|i: int| #[trigger] last_with_label(before, label, i) implies after == before.remove(i) by {
                assert(i == m);
            }
            if distinct_labels(before) {
                assert forall|j: int| 0 <= j < after.len() implies #[trigger] after[j].label != label by {
                    if j < m {
                        assert(after[j] == before[j]);
                    } else {
                        assert(after[j] == before[j + 1]);
                    }
                }
            }
        },
        None => {
            assert(after == before);
        },
    }
}

// ----------------------------------------------------------------------
// What a refresh lists

/// `t` is the task of a queue entry among the first `k` of `queue` that has
/// fallen due by `today`.
pub open spec fn due_task_of(all: Seq<TaskView>, queue: Seq<QueTask>, today: int, k: int, t: TaskView) -> bool {
    exists|m: int| 0 <= m < k && today >= queue[m].date && #[trigger] all[queue[m].task_index as int] == t
}

proof fn lemma_refresh_upto_adds_due_tasks(
    all: Seq<TaskView>,
    today: int,
    current: Seq<TaskView>,
    queue: Seq<QueTask>,
    k: nat,
)
    requires
        k <= queue.len(),
    ensures
        ({
            let r = refresh_upto(all, today, current, queue, k).0;
            &&& current.len() <= r.len()
            &&& r.take(current.len() as int) == current
            &&& forall|j: int| current.len() <= j < r.len() ==> due_task_of(all, queue, today, k as int, #[trigger] r[j])
        }),
    decreases k,
{
    if k > 0 {
        lemma_refresh_upto_adds_due_tasks(all, today, current, queue, (k - 1) as nat);
        lemma_refresh_upto_shape(all, today, current, queue, (k - 1) as nat);
        let prev = refresh_upto(all, today, current, queue, (k - 1) as nat);
        let r = refresh_upto(all, today, current, queue, k).0;
        assert(prev.1[k - 1] == queue[k - 1]);
        assert forall|j: int| current.len() <= j < prev.0.len() && due_task_of(all, queue, today, k - 1, #[trigger] prev.0[j])
            implies due_task_of(all, queue, today, k as int, prev.0[j]) by {
            let m = choose|m: int| 0 <= m < k - 1 && today >= queue[m].date && #[trigger] all[queue[m].task_index as int] == prev.0[j];
            assert(0 <= m < k && today >= queue[m].date && all[queue[m].task_index as int] == prev.0[j]);
        }
        if r != prev.0 {
            let t = all[queue[k - 1].task_index as int];
            assert(r == prev.0.push(t));
            assert(r.take(current.len() as int) =~= prev.0.take(current.len() as int));
            assert forall|j: int| current.len() <= j < r.len() implies due_task_of(all, queue, today, k as int, #[trigger] r[j]) by {
                if j < prev.0.len() {
                    assert(r[j] == prev.0[j]);
                    assert(due_task_of(all, queue, today, k - 1, prev.0[j]));
                } else {
                    assert(r[j] == t);
                    assert(all[queue[k - 1].task_index as int] == r[j]);
                }
            }
        } else {
            assert forall|j: int| current.len() <= j < r.len() implies due_task_of(all, queue, today, k as int, #[trigger] r[j]) by {
                assert(due_task_of(all, queue, today, k - 1, prev.0[j]));
            }
        }
    }
}

/// A refresh only appends to the list, and each task it appends is an
/// exact copy of the task of a queue entry that had fallen due: its label,
/// its points and its interval.  (The queue is the one `init_queue` leaves.)
pub proof fn law_refresh_lists_exact_due_tasks(b: BoardView, today: int)
    ensures
        ({
            let q = checked_queue(b.all, b.queue, today);
            let r = refreshed(b, today).current;
            &&& b.current.len() <= r.len()
            &&& forall|j: int| 0 <= j < b.current.len() ==> #[trigger] r[j] == b.current[j]
            &&& forall|j: int| b.current.len() <= j < r.len() ==> due_task_of(b.all, q, today, q.len() as int, #[trigger] r[j])
        }),
{
    let q = checked_queue(b.all, b.queue, today);
    let r = refreshed(b, today).current;
    lemma_refresh_upto_adds_due_tasks(b.all, today, b.current, q, q.len());
    assert(r == refresh_upto(b.all, today, b.current, q, q.len()).0);
    assert forall|j: int| 0 <= j < b.current.len() implies #[trigger] r[j] == b.current[j] by {
        assert(r.take(b.current.len() as int)[j] == r[j]);
    }
}

// ----------------------------------------------------------------------
// What the morning message says of completed tasks

proof fn lemma_push_drop_last<A>(s: Seq<A>, x: A)
    ensures
        s.push(x).drop_last() == s,
        s.push(x).last() == x,
{
    assert(s.push(x).drop_last() =~= s);
}

/// Every completion adds its own line to the morning message.  Take a board
/// whose records end with user `u`'s record `ts`, and the same board with
/// one more completion `t` at the end of that record.  When `t` is dated
/// `today`, the message on `today` grows by exactly the line for `t`: the
/// task's label and who did it (and the "Completed tasks" heading, when it
/// is the first completion of the day).  When `t` is dated another day, the
/// message stays as it is.
pub proof fn law_each_completion_gets_a_line(
    b: BoardView,
    u: u64,
    ts: Seq<QueTask>,
    t: QueTask,
    today: int,
)
    ensures
        ({
            let before = BoardView { completed: b.completed.push((u, ts)), ..b };
            let after = BoardView { completed: b.completed.push((u, ts.push(t))), ..b };
            let line = "\n\t\t\t\t🟢\t"@ + b.all[t.task_index as int].label + " ("@ + name_of(b.names, u) + ")"@;
            &&& t.date != today ==> notification_text(after, today) == notification_text(before, today)
            &&& t.date == today && completed_on(before.completed, today).len() > 0 ==> notification_text(after, today)
                == notification_text(before, today) + line
            &&& t.date == today && completed_on(before.completed, today).len() == 0 ==> notification_text(after, today)
                == notification_text(before, today) + "\n\nCompleted tasks: 💪🤙"@ + line
        }),
{
    let before = BoardView { completed: b.completed.push((u, ts)), ..b };
    let after = BoardView { completed: b.completed.push((u, ts.push(t))), ..b };
    let name = name_of(b.names, u);
    let line = "\n\t\t\t\t🟢\t"@ + b.all[t.task_index as int].label + " ("@ + name + ")"@;
    lemma_push_drop_last(b.completed, (u, ts));
    lemma_push_drop_last(b.completed, (u, ts.push(t)));
    lemma_push_drop_last(ts, t);
    let e = completed_on(b.completed, today);
    let d = tasks_on(ts, today);
    let cb = completed_on(before.completed, today);
    let ca = completed_on(after.completed, today);
    let head = "Good morning! Today's tasks:\n"@ + task_lines(b.all, b.current);
    let heading = "\n\nCompleted tasks: 💪🤙"@;
    if t.date != today {
        assert(tasks_on(ts.push(t), today) == d);
        assert(ca == cb);
    } else {
        assert(tasks_on(ts.push(t), today) == d.push(t));
        lemma_push_drop_last(d, t);
        lemma_push_drop_last(e, (u, d.push(t)));
        assert(ca == e.push((u, d.push(t))));
        assert(done_lines(b.all, name, d.push(t)) == done_lines(b.all, name, d) + line);
        assert(completed_lines(b.all, b.names, ca) == completed_lines(b.all, b.names, e) + done_lines(
            b.all,
            name,
            d.push(t),
        ));
        if d.len() > 0 {
            lemma_push_drop_last(e, (u, d));
            assert(cb == e.push((u, d)));
            assert(completed_lines(b.all, b.names, cb) == completed_lines(b.all, b.names, e) + done_lines(
                b.all,
                name,
                d,
            ));
            assert(completed_lines(b.all, b.names, ca) =~= completed_lines(b.all, b.names, cb) + line);
            assert(notification_text(after, today) =~= head + (heading + completed_lines(b.all, b.names, ca)));
            assert(notification_text(before, today) =~= head + (heading + completed_lines(b.all, b.names, cb)));
            assert(notification_text(after, today) =~= notification_text(before, today) + line);
        } else {
            assert(cb == e);
            assert(done_lines(b.all, name, d) == Seq::<char>::empty());
            if e.len() > 0 {
                assert(completed_lines(b.all, b.names, ca) =~= completed_lines(b.all, b.names, cb) + line);
                assert(notification_text(after, today) =~= notification_text(before, today) + line);
            } else {
                assert(completed_lines(b.all, b.names, e) == Seq::<char>::empty());
                assert(completed_lines(b.all, b.names, ca) =~= line);
                assert(notification_text(before, today) =~= head);
                assert(notification_text(after, today) =~= notification_text(before, today) + heading + line);
            }
        }
    }
}

// ----------------------------------------------------------------------
// Scores

/// The points of `tasks` added up from the front: the first task's points
/// plus the points of the rest.
pub open spec fn points_from_front(all: Seq<TaskView>, tasks: Seq<QueTask>) -> int
    decreases tasks.len(),
{
    if tasks.len() == 0 {
        0
    } else {
        all[tasks[0].task_index as int].points + points_from_front(all, tasks.drop_first())
    }
}

proof fn lemma_points_from_front(all: Seq<TaskView>, tasks: Seq<QueTask>)
    ensures
        task_points(all, tasks) == points_from_front(all, tasks),
    decreases tasks.len(),
{
    if tasks.len() > 0 {
        lemma_points_from_front(all, tasks.drop_first());
        if tasks.len() > 1 {
            lemma_points_from_front(all, tasks.drop_last());
            lemma_points_from_front(all, tasks.drop_last().drop_first());
            lemma_points_from_front(all, tasks.drop_first().drop_last());
            assert(tasks.drop_first().drop_last() =~= tasks.drop_last().drop_first());
            assert(tasks.drop_last()[0] == tasks[0]);
            assert(tasks.drop_first().last() == tasks.last());
            assert(task_points(all, tasks.drop_first()) == task_points(all, tasks.drop_first().drop_last())
                + all[tasks.last().task_index as int].points);
        } else {
            assert(tasks.drop_last() =~= Seq::<QueTask>::empty());
            assert(tasks.drop_first() =~= Seq::<QueTask>::empty());
        }
    }
}

/// The score shows every completed task of every user: one more user's
/// record `ts` adds one line, the user's name and the points of all the
/// tasks in `ts` added up.
pub proof fn law_score_counts_every_completed_task(
    all: Seq<TaskView>,
    names: Seq<(u64, Seq<char>)>,
    c: Seq<(u64, Seq<QueTask>)>,
    u: u64,
    ts: Seq<QueTask>,
)
    ensures
        score_lines(all, names, c.push((u, ts))) == score_lines(all, names, c) + "\n"@ + name_of(names, u) + " -> "@
            + decimal(points_from_front(all, ts)),
{
    lemma_push_drop_last(c, (u, ts));
    lemma_points_from_front(all, ts);
}

} // verus!
