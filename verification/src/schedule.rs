use vstd::prelude::*;
use crate::calendar::{checked_add_days, nd_now, shifted_day, valid_day, MAX_DAY};
use crate::model::{
    first_label_index, label_present, queue_holds, has_label, position_of_label, queue_has_index,
    tasks_view, Board, BoardView, QueTask, TaskView,
};

verus! {

// ----------------------------------------------------------------------
// Filling the queue

/// What filling does for one task: the task's first index gets a queue
/// entry falling due `day_interval` days after `yesterday`, unless that
/// index is queued already or the date is out of range.
pub open spec fn fill_step(
    all: Seq<TaskView>,
    queue: Seq<QueTask>,
    yesterday: Option<i32>,
    t: TaskView,
) -> Seq<QueTask> {
    match yesterday {
        None => queue,
        Some(y) => match shifted_day(y as int, t.day_interval as int) {
            None => queue,
            Some(date) => match first_label_index(all, t.label) {
                None => queue,
                Some(index) => if queue_holds(queue, index) {
                    queue
                } else {
                    queue.push(QueTask { date, task_index: index as usize })
                },
            },
        },
    }
}

/// The queue after filling for the first `k` tasks.
pub open spec fn fill_upto(all: Seq<TaskView>, queue: Seq<QueTask>, yesterday: Option<i32>, k: nat) -> Seq<
    QueTask,
>
    decreases k,
{
    if k == 0 {
        queue
    } else {
        fill_step(all, fill_upto(all, queue, yesterday, (k - 1) as nat), yesterday, all[k - 1])
    }
}

/// The queue filled on day `today`: every task not yet queued is queued to
/// fall due its interval after yesterday.
pub open spec fn filled_queue(all: Seq<TaskView>, queue: Seq<QueTask>, today: int) -> Seq<QueTask> {
    fill_upto(all, queue, shifted_day(today, -1), all.len())
}

/// The queue as it stands after `init_queue` on day `today`: filled when it
/// does not hold one entry per task.
pub open spec fn checked_queue(all: Seq<TaskView>, queue: Seq<QueTask>, today: int) -> Seq<QueTask> {
    if queue.len() != all.len() {
        filled_queue(all, queue, today)
    } else {
        queue
    }
}

// ----------------------------------------------------------------------
// Refreshing: moving due tasks onto the list

/// What refreshing does with queue entry `k`: when it has fallen due, its
/// task goes onto the list unless a task with that label is there already,
/// and the entry moves on by the task's interval (it stays where it is when
/// the new date is out of range).
pub open spec fn refresh_entry(
    all: Seq<TaskView>,
    today: int,
    state: (Seq<TaskView>, Seq<QueTask>),
    k: int,
) -> (Seq<TaskView>, Seq<QueTask>) {
    let (current, queue) = state;
    let e = queue[k];
    if today >= e.date {
        let t = all[e.task_index as int];
        let current2 = if label_present(current, t.label) {
            current
        } else {
            current.push(t)
        };
        let e2 = match shifted_day(e.date as int, t.day_interval as int) {
            Some(date) => QueTask { date, task_index: e.task_index },
            None => e,
        };
        (current2, queue.update(k, e2))
    } else {
        state
    }
}

/// The list and the queue after refreshing the first `k` queue entries.
pub open spec fn refresh_upto(
    all: Seq<TaskView>,
    today: int,
    current: Seq<TaskView>,
    queue: Seq<QueTask>,
    k: nat,
) -> (Seq<TaskView>, Seq<QueTask>)
    decreases k,
{
    if k == 0 {
        (current, queue)
    } else {
        refresh_entry(all, today, refresh_upto(all, today, current, queue, (k - 1) as nat), k - 1)
    }
}

/// The board after a refresh on day `today`.
pub open spec fn refreshed(b: BoardView, today: int) -> BoardView {
    let queue = checked_queue(b.all, b.queue, today);
    let (current, queue2) = refresh_upto(b.all, today, b.current, queue, queue.len());
    BoardView { all: b.all, current, queue: queue2, completed: b.completed, names: b.names }
}

/// Filling only appends, and what it appends refers to tasks.
pub proof fn lemma_fill_upto_appends(all: Seq<TaskView>, queue: Seq<QueTask>, yesterday: Option<i32>, k: nat)
    requires
        k <= all.len(),
        all.len() <= usize::MAX,
    ensures
        queue.len() <= fill_upto(all, queue, yesterday, k).len(),
        fill_upto(all, queue, yesterday, k).take(queue.len() as int) == queue,
        forall|i: int|
            queue.len() <= i < fill_upto(all, queue, yesterday, k).len() ==> #[trigger] fill_upto(
                all,
                queue,
                yesterday,
                k,
            )[i].task_index < all.len(),
    decreases k,
{
    if k == 0 {
        assert(queue.take(queue.len() as int) =~= queue);
    } else {
        let prev = fill_upto(all, queue, yesterday, (k - 1) as nat);
        lemma_fill_upto_appends(all, queue, yesterday, (k - 1) as nat);
        crate::model::lemma_first_label_index(all, all[k - 1].label);
        let r = fill_upto(all, queue, yesterday, k);
        assert(r == fill_step(all, prev, yesterday, all[k - 1]));
        if r != prev {
            assert(r.take(queue.len() as int) =~= prev.take(queue.len() as int));
        }
        assert forall|i: int| queue.len() <= i < r.len() implies #[trigger] r[i].task_index < all.len() by {
            if i < prev.len() {
                assert(r[i] == prev[i]);
            }
        }
    }
}

/// The queue after `init_queue` keeps every entry it had and appends only
/// entries that refer to tasks.
pub proof fn lemma_checked_queue_appends(b: BoardView, today: int)
    requires
        b.all.len() <= usize::MAX,
    ensures
        b.queue.len() <= checked_queue(b.all, b.queue, today).len(),
        forall|i: int| 0 <= i < b.queue.len() ==> #[trigger] checked_queue(b.all, b.queue, today)[i] == b.queue[i],
        forall|i: int|
            b.queue.len() <= i < checked_queue(b.all, b.queue, today).len() ==> #[trigger] checked_queue(
                b.all,
                b.queue,
                today,
            )[i].task_index < b.all.len(),
{
    lemma_fill_upto_appends(b.all, b.queue, shifted_day(today, -1), b.all.len());
    let q = checked_queue(b.all, b.queue, today);
    assert forall|i: int| 0 <= i < b.queue.len() implies #[trigger] q[i] == b.queue[i] by {
        if q != b.queue {
            assert(q.take(b.queue.len() as int)[i] == q[i]);
        }
    }
}

pub proof fn lemma_refresh_upto_shape(
    all: Seq<TaskView>,
    today: int,
    current: Seq<TaskView>,
    queue: Seq<QueTask>,
    k: nat,
)
    requires
        k <= queue.len(),
    ensures
        refresh_upto(all, today, current, queue, k).1.len() == queue.len(),
        forall|i: int|
            0 <= i < queue.len() ==> (#[trigger] refresh_upto(all, today, current, queue, k).1[i]).task_index
                == queue[i].task_index,
        forall|i: int|
            k <= i < queue.len() ==> #[trigger] refresh_upto(all, today, current, queue, k).1[i]
                == queue[i],
    decreases k,
{
    if k > 0 {
        lemma_refresh_upto_shape(all, today, current, queue, (k - 1) as nat);
    }
}

impl Board {
    /// Queues, to fall due their interval after yesterday, the tasks whose
    /// first index has no queue entry yet.  Only the queue changes.
    pub fn fill_que_on(&mut self, today: i32)
        ensures
            old(self)@.wf() ==> final(self)@.wf(),
            old(self)@.due_entries_known(today as int) ==> final(self)@.due_entries_known(today as int),
            final(self)@ == (BoardView {
                queue: filled_queue(old(self)@.all, old(self)@.queue, today as int),
                ..old(self)@
            }),
    {
        let ghost all = self@.all;
        let ghost q0 = self@.queue;
        let ghost yd = shifted_day(today as int, -1);
        proof {
            assert(all.len() == self.all_tasks.len());
            lemma_checked_queue_appends(self@, today as int);
            lemma_fill_upto_appends(all, q0, yd, all.len());
        }
        let yesterday = checked_add_days(today, -1);
        let mut k: usize = 0;
        while k < self.all_tasks.len()
            invariant
                k <= self.all_tasks.len(),
                all == self@.all,
                all == old(self)@.all,
                yesterday == yd,
                self.task_queue@ == fill_upto(all, q0, yd, k as nat),
                self.current_tasks == old(self).current_tasks,
                self.completed_tasks == old(self).completed_tasks,
                self.names == old(self).names,
            decreases self.all_tasks.len() - k,
        {
            assert(all[k as int] == self.all_tasks@[k as int]@);
            let interval = self.all_tasks[k].day_interval;
            if let Some(y) = yesterday {
                if let Some(date) = checked_add_days(y, interval as i32) {
                    let found = position_of_label(&self.all_tasks, &self.all_tasks[k].label);
                    if let Some(index) = found {
                        if !queue_has_index(&self.task_queue, index) {
                            self.task_queue.push(QueTask { date, task_index: index });
                        }
                    }
                }
            }
            k = k + 1;
        }
    }

    /// Queues the tasks not yet queued, reading today's date from the clock.
    pub fn fill_que(&mut self)
        ensures
            old(self)@.wf() ==> final(self)@.wf(),
            exists|today: int|
                valid_day(today) && final(self)@ == (BoardView {
                    queue: filled_queue(old(self)@.all, old(self)@.queue, today),
                    ..old(self)@
                }),
    {
        let today = nd_now();
        self.fill_que_on(today);
    }

    /// Makes sure the queue holds one entry per task: when its length is not
    /// the number of tasks, it is filled.
    pub fn init_queue_on(&mut self, today: i32)
        ensures
            old(self)@.wf() ==> final(self)@.wf(),
            old(self)@.due_entries_known(today as int) ==> final(self)@.due_entries_known(today as int),
            final(self)@ == (BoardView {
                queue: checked_queue(old(self)@.all, old(self)@.queue, today as int),
                ..old(self)@
            }),
    {
        if self.task_queue.len() != self.all_tasks.len() {
            self.fill_que_on(today);
        }
    }

    /// `init_queue_on`, reading today's date from the clock.
    pub fn init_queue(&mut self)
        ensures
            old(self)@.wf() ==> final(self)@.wf(),
            exists|today: int|
                valid_day(today) && final(self)@ == (BoardView {
                    queue: checked_queue(old(self)@.all, old(self)@.queue, today),
                    ..old(self)@
                }),
    {
        let today = nd_now();
        self.init_queue_on(today);
    }

    /// Puts every task that has fallen due by `today` onto the list (unless
    /// a task with its label is there already) and moves its queue entry on
    /// by the task's interval.  A queue that does not hold one entry per task
    /// is filled first.
    pub fn refresh_tasks_on(&mut self, today: i32)
        requires
            old(self)@.due_entries_known(today as int),
        ensures
            old(self)@.wf() ==> final(self)@.wf(),
            final(self)@ == refreshed(old(self)@, today as int),
    {
        self.init_queue_on(today);
        let ghost all = self@.all;
        let ghost c0 = self@.current;
        let ghost q0 = self@.queue;
        let mut k: usize = 0;
        while k < self.task_queue.len()
            invariant
                k <= self.task_queue.len(),
                self.task_queue@.len() == q0.len(),
                all == self@.all,
                all == old(self)@.all,
                forall|i: int| 0 <= i < q0.len() && today >= q0[i].date ==> #[trigger] q0[i].task_index < all.len(),
                old(self)@.wf() ==> forall|i: int| 0 <= i < q0.len() ==> #[trigger] q0[i].task_index < all.len(),
                (self@.current, self@.queue) == refresh_upto(all, today as int, c0, q0, k as nat),
                self@.completed == old(self)@.completed,
                self@.names == old(self)@.names,
            decreases self.task_queue.len() - k,
        {
            proof {
                lemma_refresh_upto_shape(all, today as int, c0, q0, k as nat);
            }
            let entry = self.task_queue[k];
            assert(entry == q0[k as int]);
            if today >= entry.date {
                let index = entry.task_index;
                assert(all[index as int] == self.all_tasks@[index as int]@);
                if !has_label(&self.current_tasks, &self.all_tasks[index].label) {
                    let t = self.all_tasks[index].duplicate();
                    let ghost before = self.current_tasks@;
                    self.current_tasks.push(t);
                    assert(tasks_view(self.current_tasks@) =~= tasks_view(before).push(t@));
                }
                let interval = self.all_tasks[index].day_interval;
                match checked_add_days(entry.date, interval as i32) {
                    Some(date) => {
                        self.task_queue.set(k, QueTask { date, task_index: index });
                    },
                    None => {
                        self.task_queue.set(k, entry);
                    },
                }
            }
            k = k + 1;
        }
        proof {
            lemma_refresh_upto_shape(all, today as int, c0, q0, k as nat);
            if old(self)@.wf() {
                assert forall|i: int| 0 <= i < self@.queue.len() implies #[trigger] self@.queue[i].task_index
                    < all.len() by {
                    assert(self@.queue[i].task_index == q0[i].task_index);
                }
            }
        }
    }

    /// `refresh_tasks_on`, reading today's date from the clock.
    pub fn refresh_tasks(&mut self)
        requires
            old(self)@.due_entries_known(MAX_DAY as int),
        ensures
            old(self)@.wf() ==> final(self)@.wf(),
            exists|today: int| valid_day(today) && final(self)@ == refreshed(old(self)@, today),
    {
        let today = nd_now();
        assert(self@.due_entries_known(today as int));
        self.refresh_tasks_on(today);
    }

    /// Whether every queue entry due by `today` refers to a task: what
    /// `refresh_tasks_on` needs.
    pub fn due_entries_known_on(&self, today: i32) -> (ok: bool)
        ensures
            ok == self@.due_entries_known(today as int),
    {
        let mut k: usize = 0;
        while k < self.task_queue.len()
            invariant
                k <= self.task_queue.len(),
                forall|i: int|
                    0 <= i < k && today >= self@.queue[i].date ==> #[trigger] self@.queue[i].task_index
                        < self@.all.len(),
            decreases self.task_queue.len() - k,
        {
            let entry = self.task_queue[k];
            if today >= entry.date && entry.task_index >= self.all_tasks.len() {
                assert(self@.queue[k as int].task_index >= self@.all.len());
                return false;
            }
            k = k + 1;
        }
        true
    }
}

} // verus!
