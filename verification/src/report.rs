use vstd::prelude::*;
use crate::calendar::{nd_now, valid_day};
use crate::model::{
    completed_view, first_label_index, lemma_user_index, names_view, position_of_label,
    user_index, Board, BoardView, QueTask, TaskView, UserName, UserTasks,
};
use crate::text::{decimal, push_decimal, push_nat_decimal};

verus! {

// ----------------------------------------------------------------------
// Names

/// The name shown for user `id`: the one kept for them, or "Unknown user".
pub open spec fn name_of(names: Seq<(u64, Seq<char>)>, id: u64) -> Seq<char> {
    match user_index(names, id) {
        Some(i) => names[i].1,
        None => "Unknown user"@,
    }
}

/// The index of the first name kept for user `id`.
pub fn find_name(names: &Vec<UserName>, id: u64) -> (i: Option<usize>)
    ensures
        match i {
            Some(i) => user_index(names_view(names@), id) == Some(i as int),
            None => user_index(names_view(names@), id) is None,
        },
{
    let ghost s = names_view(names@);
    proof {
        lemma_user_index(s, id);
    }
    let mut i: usize = 0;
    while i < names.len()
        invariant
            i <= names.len(),
            s == names_view(names@),
            forall|j: int| 0 <= j < i ==> #[trigger] s[j].0 != id,
            match user_index(s, id) {
                Some(k) => 0 <= k < s.len() && s[k].0 == id && forall|j: int|
                    0 <= j < k ==> #[trigger] s[j].0 != id,
                None => forall|j: int| 0 <= j < s.len() ==> #[trigger] s[j].0 != id,
            },
        decreases names.len() - i,
    {
        assert(s[i as int] == names@[i as int]@);
        if names[i].user_id == id {
            assert(s[i as int].0 == id);
            return Some(i);
        }
        i = i + 1;
    }
    None
}

/// The index of the record of user `id`.
pub fn find_user(completed: &Vec<UserTasks>, id: u64) -> (i: Option<usize>)
    ensures
        match i {
            Some(i) => user_index(completed_view(completed@), id) == Some(i as int),
            None => user_index(completed_view(completed@), id) is None,
        },
{
    let ghost s = completed_view(completed@);
    proof {
        lemma_user_index(s, id);
    }
    let mut i: usize = 0;
    while i < completed.len()
        invariant
            i <= completed.len(),
            s == completed_view(completed@),
            forall|j: int| 0 <= j < i ==> #[trigger] s[j].0 != id,
            match user_index(s, id) {
                Some(k) => 0 <= k < s.len() && s[k].0 == id && forall|j: int|
                    0 <= j < k ==> #[trigger] s[j].0 != id,
                None => forall|j: int| 0 <= j < s.len() ==> #[trigger] s[j].0 != id,
            },
        decreases completed.len() - i,
    {
        assert(s[i as int] == completed@[i as int]@);
        if completed[i].user_id == id {
            assert(s[i as int].0 == id);
            return Some(i);
        }
        i = i + 1;
    }
    None
}

// ----------------------------------------------------------------------
// Today's completed tasks

/// The entries of `tasks` dated `day`, in order.
pub open spec fn tasks_on(tasks: Seq<QueTask>, day: int) -> Seq<QueTask>
    decreases tasks.len(),
{
    if tasks.len() == 0 {
        seq![]
    } else {
        let earlier = tasks_on(tasks.drop_last(), day);
        if tasks.last().date == day {
            earlier.push(tasks.last())
        } else {
            earlier
        }
    }
}

/// Per user, in order, the tasks completed on `day`; users with none are
/// left out.
pub open spec fn completed_on(c: Seq<(u64, Seq<QueTask>)>, day: int) -> Seq<(u64, Seq<QueTask>)>
    decreases c.len(),
{
    if c.len() == 0 {
        seq![]
    } else {
        let earlier = completed_on(c.drop_last(), day);
        let done = tasks_on(c.last().1, day);
        if done.len() > 0 {
            earlier.push((c.last().0, done))
        } else {
            earlier
        }
    }
}

// ----------------------------------------------------------------------
// The morning notification

/// The line for a task on the list: its number (the first index of its
/// label among all tasks), its points and its label.  A task whose label
/// is not among all tasks gets the line without a number.
pub open spec fn task_line(all: Seq<TaskView>, t: TaskView) -> Seq<char> {
    match first_label_index(all, t.label) {
        Some(i) => "\n"@ + decimal(i) + "\t\t🟡\t"@ + decimal(t.points as int) + "p\t|\t"@ + t.label,
        None => "\n\t\t🟡\t"@ + decimal(t.points as int) + "p\t|\t"@ + t.label,
    }
}

/// The lines for the tasks on the list, in order.
pub open spec fn task_lines(all: Seq<TaskView>, current: Seq<TaskView>) -> Seq<char>
    decreases current.len(),
{
    if current.len() == 0 {
        seq![]
    } else {
        task_lines(all, current.drop_last()) + task_line(all, current.last())
    }
}

/// The line for a completed task: its label and who did it.
pub open spec fn done_line(all: Seq<TaskView>, name: Seq<char>, t: QueTask) -> Seq<char> {
    "\n\t\t\t\t🟢\t"@ + all[t.task_index as int].label + " ("@ + name + ")"@
}

/// The lines for one user's completed tasks.
pub open spec fn done_lines(all: Seq<TaskView>, name: Seq<char>, tasks: Seq<QueTask>) -> Seq<char>
    decreases tasks.len(),
{
    if tasks.len() == 0 {
        seq![]
    } else {
        done_lines(all, name, tasks.drop_last()) + done_line(all, name, tasks.last())
    }
}

/// The lines for every user's completed tasks.
pub open spec fn completed_lines(
    all: Seq<TaskView>,
    names: Seq<(u64, Seq<char>)>,
    c: Seq<(u64, Seq<QueTask>)>,
) -> Seq<char>
    decreases c.len(),
{
    if c.len() == 0 {
        seq![]
    } else {
        completed_lines(all, names, c.drop_last()) + done_lines(
            all,
            name_of(names, c.last().0),
            c.last().1,
        )
    }
}

/// The morning message: the tasks on the list, then, if any task was
/// completed today, who completed what.
pub open spec fn notification_text(b: BoardView, today: int) -> Seq<char> {
    let done = completed_on(b.completed, today);
    "Good morning! Today's tasks:\n"@ + task_lines(b.all, b.current) + if done.len() > 0 {
        "\n\nCompleted tasks: 💪🤙"@ + completed_lines(b.all, b.names, done)
    } else {
        seq![]
    }
}

// ----------------------------------------------------------------------
// Scores

/// The points of the tasks in `tasks`, added up.
pub open spec fn task_points(all: Seq<TaskView>, tasks: Seq<QueTask>) -> int
    decreases tasks.len(),
{
    if tasks.len() == 0 {
        0
    } else {
        task_points(all, tasks.drop_last()) + all[tasks.last().task_index as int].points
    }
}

/// Adding up the points of `tasks` from the left never leaves `i64`.
pub open spec fn points_fit(all: Seq<TaskView>, tasks: Seq<QueTask>) -> bool {
    forall|k: int|
        0 <= k <= tasks.len() ==> i64::MIN <= #[trigger] task_points(all, tasks.take(k)) <= i64::MAX
}

/// One line per user: their name and their score.
pub open spec fn score_lines(
    all: Seq<TaskView>,
    names: Seq<(u64, Seq<char>)>,
    c: Seq<(u64, Seq<QueTask>)>,
) -> Seq<char>
    decreases c.len(),
{
    if c.len() == 0 {
        seq![]
    } else {
        score_lines(all, names, c.drop_last()) + "\n"@ + name_of(names, c.last().0) + " -> "@
            + decimal(task_points(all, c.last().1))
    }
}

/// Every task reference among those completed on `day` is a task.
pub proof fn lemma_completed_on_valid(b: BoardView, day: int)
    requires
        b.completions_dated_known(day),
    ensures
        forall|i: int, j: int|
            0 <= i < completed_on(b.completed, day).len() && 0 <= j < completed_on(
                b.completed,
                day,
            )[i].1.len() ==> #[trigger] completed_on(b.completed, day)[i].1[j].task_index
                < b.all.len(),
{
    lemma_completed_on_sub(b.completed, day, b.all.len());
}

proof fn lemma_tasks_on_sub(tasks: Seq<QueTask>, day: int, n: nat)
    requires
        forall|j: int| 0 <= j < tasks.len() && tasks[j].date == day ==> #[trigger] tasks[j].task_index < n,
    ensures
        forall|j: int| 0 <= j < tasks_on(tasks, day).len() ==> #[trigger] tasks_on(tasks, day)[j].task_index < n,
    decreases tasks.len(),
{
    if tasks.len() > 0 {
        let rest = tasks.drop_last();
        assert forall|j: int| 0 <= j < rest.len() && rest[j].date == day implies #[trigger] rest[j].task_index < n by {
            assert(rest[j] == tasks[j]);
        }
        lemma_tasks_on_sub(rest, day, n);
        let earlier = tasks_on(rest, day);
        let r = tasks_on(tasks, day);
        assert forall|j: int| 0 <= j < r.len() implies #[trigger] r[j].task_index < n by {
            if j < earlier.len() {
                assert(r[j] == earlier[j]);
            } else {
                assert(r[j] == tasks[tasks.len() - 1]);
            }
        }
    }
}

proof fn lemma_completed_on_sub(c: Seq<(u64, Seq<QueTask>)>, day: int, n: nat)
    requires
        forall|i: int, j: int| 0 <= i < c.len() && 0 <= j < c[i].1.len() && c[i].1[j].date == day ==> #[trigger] c[i].1[j].task_index < n,
    ensures
        forall|i: int, j: int|
            0 <= i < completed_on(c, day).len() && 0 <= j < completed_on(c, day)[i].1.len()
                ==> #[trigger] completed_on(c, day)[i].1[j].task_index < n,
    decreases c.len(),
{
    if c.len() > 0 {
        let rest = c.drop_last();
        assert forall|i: int, j: int| 0 <= i < rest.len() && 0 <= j < rest[i].1.len() && rest[i].1[j].date == day implies #[trigger] rest[i].1[j].task_index < n by {
            assert(rest[i] == c[i]);
        }
        lemma_completed_on_sub(rest, day, n);
        let last = c.last();
        assert forall|j: int| 0 <= j < last.1.len() && last.1[j].date == day implies #[trigger] last.1[j].task_index < n by {
            assert(c[c.len() - 1].1[j] == last.1[j]);
        }
        lemma_tasks_on_sub(last.1, day, n);
        let earlier = completed_on(rest, day);
        let r = completed_on(c, day);
        assert forall|i: int, j: int| 0 <= i < r.len() && 0 <= j < r[i].1.len() implies #[trigger] r[i].1[j].task_index < n by {
            if i < earlier.len() {
                assert(r[i] == earlier[i]);
            } else {
                assert(r[i].1 == tasks_on(last.1, day));
            }
        }
    }
}

impl Board {
    /// The name shown for user `user_id`: the one kept, or "Unknown user".
    pub fn get_name(&self, user_id: u64) -> (name: String)
        ensures
            name@ == name_of(self@.names, user_id),
    {
        proof {
            lemma_user_index(self@.names, user_id);
        }
        match find_name(&self.names, user_id) {
            Some(i) => {
                assert(self@.names[i as int] == self.names@[i as int]@);
                self.names[i].name.clone()
            },
            None => {
                let mut name = String::new();
                name.append("Unknown user");
                assert(name@ =~= "Unknown user"@);
                name
            },
        }
    }

    /// Per user, the tasks they completed on `today`.
    pub fn get_today_completed_tasks_on(&self, today: i32) -> (done: Vec<UserTasks>)
        ensures
            completed_view(done@) == completed_on(self@.completed, today as int),
    {
        let ghost c = self@.completed;
        let mut done: Vec<UserTasks> = Vec::new();
        let mut i: usize = 0;
        while i < self.completed_tasks.len()
            invariant
                i <= self.completed_tasks.len(),
                c == completed_view(self.completed_tasks@),
                completed_view(done@) == completed_on(c.take(i as int), today as int),
            decreases self.completed_tasks.len() - i,
        {
            let user = &self.completed_tasks[i];
            let ghost ts = user.tasks@;
            let mut today_tasks: Vec<QueTask> = Vec::new();
            let mut j: usize = 0;
            while j < user.tasks.len()
                invariant
                    j <= user.tasks.len(),
                    ts == user.tasks@,
                    today_tasks@ == tasks_on(ts.take(j as int), today as int),
                decreases user.tasks.len() - j,
            {
                assert(ts.take(j + 1).drop_last() =~= ts.take(j as int));
                let t = user.tasks[j];
                if t.date == today {
                    today_tasks.push(t);
                }
                j = j + 1;
            }
            assert(ts.take(j as int) =~= ts);
            proof {
                assert(c.take(i + 1).drop_last() =~= c.take(i as int));
                assert(c[i as int] == self.completed_tasks@[i as int]@);
            }
            if today_tasks.len() > 0 {
                let ghost before = done@;
                done.push(UserTasks { user_id: user.user_id, tasks: today_tasks });
                assert(completed_view(done@) =~= completed_view(before).push(
                    (c[i as int].0, tasks_on(c[i as int].1, today as int)),
                ));
            }
            i = i + 1;
        }
        assert(c.take(i as int) =~= c);
        done
    }

    /// `get_today_completed_tasks_on`, reading today's date from the clock.
    pub fn get_today_completed_tasks(&self) -> (done: Vec<UserTasks>)
        ensures
            exists|today: int|
                valid_day(today) && completed_view(done@) == completed_on(self@.completed, today),
    {
        let today = nd_now();
        self.get_today_completed_tasks_on(today)
    }

    /// The morning message on day `today`: each task on the list with its
    /// number and points, then, if anyone completed a task today, the
    /// completed tasks with who did them.
    pub fn construct_notification_text_on(&self, today: i32) -> (text: String)
        requires
            self@.completions_dated_known(today as int),
        ensures
            text@ == notification_text(self@, today as int),
    {
        let ghost all = self@.all;
        let ghost cur = self@.current;
        let mut out = String::new();
        out.append("Good morning! Today's tasks:\n");
        let ghost head = out@;
        assert(head =~= "Good morning! Today's tasks:\n"@);
        let mut k: usize = 0;
        while k < self.current_tasks.len()
            invariant
                k <= self.current_tasks.len(),
                all == self@.all,
                cur == self@.current,
                out@ == head + task_lines(all, cur.take(k as int)),
            decreases self.current_tasks.len() - k,
        {
            let ghost before = out@;
            let task = &self.current_tasks[k];
            assert(cur[k as int] == task@);
            assert(cur.take(k + 1).drop_last() =~= cur.take(k as int));
            match position_of_label(&self.all_tasks, &task.label) {
                Some(index) => {
                    out.append("\n");
                    push_nat_decimal(&mut out, index as u64);
                    out.append("\t\t🟡\t");
                    push_decimal(&mut out, task.points as i64);
                    out.append("p\t|\t");
                    out.append(task.label.as_str());
                    assert(out@ =~= before + task_line(all, task@));
                },
                None => {
                    out.append("\n\t\t🟡\t");
                    push_decimal(&mut out, task.points as i64);
                    out.append("p\t|\t");
                    out.append(task.label.as_str());
                    assert(out@ =~= before + task_line(all, task@));
                },
            }
            assert(head + task_lines(all, cur.take(k + 1)) =~= before + task_line(all, task@));
            k = k + 1;
        }
        assert(cur.take(k as int) =~= cur);
        let ghost listed = out@;
        let done = self.get_today_completed_tasks_on(today);
        let ghost dv = completed_view(done@);
        if done.len() > 0 {
            out.append("\n\nCompleted tasks: 💪🤙");
            let ghost mid = out@;
            let mut i: usize = 0;
            while i < done.len()
                invariant
                    i <= done.len(),
                    all == self@.all,
                    self@.completions_dated_known(today as int),
                    dv == completed_view(done@),
                    dv == completed_on(self@.completed, today as int),
                    out@ == mid + completed_lines(all, self@.names, dv.take(i as int)),
                decreases done.len() - i,
            {
                let ghost before_user = out@;
                let user = &done[i];
                assert(dv[i as int] == user@);
                let name = self.get_name(user.user_id);
                let ghost ts = user.tasks@;
                proof {
                    lemma_completed_on_valid(self@, today as int);
                    assert forall|m: int| 0 <= m < ts.len() implies #[trigger] ts[m].task_index < all.len() by {
                        assert(dv[i as int].1[m] == ts[m]);
                    }
                }
                let mut j: usize = 0;
                while j < user.tasks.len()
                    invariant
                        j <= user.tasks.len(),
                        ts == user.tasks@,
                        all == self@.all,
                        all.len() == self.all_tasks.len(),
                        forall|m: int| 0 <= m < ts.len() ==> #[trigger] ts[m].task_index < all.len(),
                        out@ == before_user + done_lines(all, name@, ts.take(j as int)),
                    decreases user.tasks.len() - j,
                {
                    let ghost before = out@;
                    let t = user.tasks[j];
                    assert(ts.take(j + 1).drop_last() =~= ts.take(j as int));
                    assert(all[t.task_index as int] == self.all_tasks@[t.task_index as int]@);
                    out.append("\n\t\t\t\t🟢\t");
                    out.append(self.all_tasks[t.task_index].label.as_str());
                    out.append(" (");
                    out.append(name.as_str());
                    out.append(")");
                    assert(out@ =~= before + done_line(all, name@, t));
                    j = j + 1;
                }
                assert(ts.take(j as int) =~= ts);
                assert(dv.take(i + 1).drop_last() =~= dv.take(i as int));
                i = i + 1;
            }
            assert(dv.take(i as int) =~= dv);
            assert(out@ =~= notification_text(self@, today as int));
        } else {
            assert(out@ =~= notification_text(self@, today as int));
        }
        out
    }

    /// The morning message, for today's date read from the clock.
    pub fn construct_notification_text(&self) -> (text: String)
        requires
            self@.calendar_completions_known(),
        ensures
            exists|today: int| valid_day(today) && text@ == notification_text(self@, today),
    {
        let today = nd_now();
        assert(self@.completions_dated_known(today as int));
        self.construct_notification_text_on(today)
    }

    /// One line per user, in record order: the user's name and the sum of
    /// the points of the tasks they completed.
    pub fn display_score(&self) -> (text: String)
        requires
            self@.completions_known(),
            forall|i: int| 0 <= i < self@.completed.len() ==> points_fit(self@.all, #[trigger] self@.completed[i].1),
        ensures
            text@ == score_lines(self@.all, self@.names, self@.completed),
    {
        let ghost all = self@.all;
        let ghost c = self@.completed;
        let mut out = String::new();
        assert(out@ =~= score_lines(all, self@.names, c.take(0)));
        let mut i: usize = 0;
        while i < self.completed_tasks.len()
            invariant
                i <= self.completed_tasks.len(),
                all == self@.all,
                c == self@.completed,
                self@.completions_known(),
                forall|m: int| 0 <= m < c.len() ==> points_fit(all, #[trigger] c[m].1),
                out@ == score_lines(all, self@.names, c.take(i as int)),
            decreases self.completed_tasks.len() - i,
        {
            let user = &self.completed_tasks[i];
            assert(c[i as int] == user@);
            let ghost ts = user.tasks@;
            assert(points_fit(all, c[i as int].1));
            let mut score: i64 = 0;
            let mut j: usize = 0;
            assert(ts.take(0) =~= seq![]);
            while j < user.tasks.len()
                invariant
                    j <= user.tasks.len(),
                    ts == user.tasks@,
                    ts == c[i as int].1,
                    c == self@.completed,
                    all == self@.all,
                    all.len() == self.all_tasks.len(),
                    0 <= i < c.len(),
                    self@.completions_known(),
                    points_fit(all, ts),
                    score == task_points(all, ts.take(j as int)),
                decreases user.tasks.len() - j,
            {
                let t = user.tasks[j];
                assert(ts.take(j + 1).drop_last() =~= ts.take(j as int));
                assert(t == self@.completed[i as int].1[j as int]);
                assert(t.task_index < all.len());
                assert(all[t.task_index as int] == self.all_tasks@[t.task_index as int]@);
                assert(task_points(all, ts.take(j + 1)) == score + all[t.task_index as int].points);
                assert(i64::MIN <= task_points(all, ts.take(j + 1)) <= i64::MAX);
                score = score + self.all_tasks[t.task_index].points as i64;
                j = j + 1;
            }
            assert(ts.take(j as int) =~= ts);
            let ghost before = out@;
            let name = self.get_name(user.user_id);
            out.append("\n");
            out.append(name.as_str());
            out.append(" -> ");
            push_decimal(&mut out, score);
            assert(c.take(i + 1).drop_last() =~= c.take(i as int));
            assert(out@ =~= score_lines(all, self@.names, c.take(i + 1)));
            i = i + 1;
        }
        assert(c.take(i as int) =~= c);
        out
    }

    /// Whether every task reference completed on `today` names a task: what
    /// `construct_notification_text_on` needs.
    pub fn completions_known_on(&self, today: i32) -> (ok: bool)
        ensures
            ok == self@.completions_dated_known(today as int),
    {
        let ghost v = self@;
        let n = self.all_tasks.len();
        let mut i: usize = 0;
        while i < self.completed_tasks.len()
            invariant
                i <= self.completed_tasks.len(),
                v == self@,
                n == v.all.len(),
                forall|k: int, j: int|
                    0 <= k < i && 0 <= j < v.completed[k].1.len() && v.completed[k].1[j].date == today
                        ==> #[trigger] v.completed[k].1[j].task_index < n,
            decreases self.completed_tasks.len() - i,
        {
            let user = &self.completed_tasks[i];
            assert(v.completed[i as int] == user@);
            let mut j: usize = 0;
            while j < user.tasks.len()
                invariant
                    j <= user.tasks.len(),
                    i < self.completed_tasks.len(),
                    v == self@,
                    v.completed[i as int] == user@,
                    n == v.all.len(),
                    forall|k: int, m: int|
                        0 <= k < i && 0 <= m < v.completed[k].1.len() && v.completed[k].1[m].date == today
                            ==> #[trigger] v.completed[k].1[m].task_index < n,
                    forall|m: int| 0 <= m < j && user.tasks@[m].date == today ==> #[trigger] user.tasks@[m].task_index < n,
                decreases user.tasks.len() - j,
            {
                if user.tasks[j].date == today && user.tasks[j].task_index >= n {
                    assert(v.completed[i as int].1[j as int].task_index >= n);
                    return false;
                }
                j = j + 1;
            }
            assert forall|k: int, m: int|
                0 <= k < i + 1 && 0 <= m < v.completed[k].1.len() && v.completed[k].1[m].date == today
                    implies #[trigger] v.completed[k].1[m].task_index < n by {
                if k == i {
                    assert(v.completed[k].1[m] == user.tasks@[m]);
                }
            }
            i = i + 1;
        }
        true
    }

    /// Whether the scores can be added up: every completed task reference
    /// names a task and no running total leaves `i64`.  This is what
    /// `display_score` needs.
    pub fn scores_computable(&self) -> (ok: bool)
        ensures
            ok == (self@.completions_known() && forall|i: int|
                0 <= i < self@.completed.len() ==> points_fit(self@.all, #[trigger] self@.completed[i].1)),
    {
        let ghost v = self@;
        let ghost all = v.all;
        let n = self.all_tasks.len();
        let mut i: usize = 0;
        while i < self.completed_tasks.len()
            invariant
                i <= self.completed_tasks.len(),
                v == self@,
                all == v.all,
                n == all.len(),
                forall|k: int, j: int|
                    0 <= k < i && 0 <= j < v.completed[k].1.len() ==> #[trigger] v.completed[k].1[j].task_index < n,
                forall|k: int| 0 <= k < i ==> points_fit(all, #[trigger] v.completed[k].1),
            decreases self.completed_tasks.len() - i,
        {
            let user = &self.completed_tasks[i];
            assert(v.completed[i as int] == user@);
            let ghost ts = user.tasks@;
            let mut score: i64 = 0;
            let mut j: usize = 0;
            assert(ts.take(0) =~= seq![]);
            while j < user.tasks.len()
                invariant
                    j <= user.tasks.len(),
                    i < self.completed_tasks.len(),
                    v == self@,
                    all == v.all,
                    n == all.len(),
                    n == self.all_tasks.len(),
                    ts == user.tasks@,
                    v.completed[i as int] == user@,
                    forall|m: int| 0 <= m < j ==> #[trigger] ts[m].task_index < n,
                    forall|m: int| 0 <= m <= j ==> i64::MIN <= #[trigger] task_points(all, ts.take(m)) <= i64::MAX,
                    score == task_points(all, ts.take(j as int)),
                decreases user.tasks.len() - j,
            {
                let t = user.tasks[j];
                if t.task_index >= n {
                    assert(v.completed[i as int].1[j as int].task_index >= n);
                    return false;
                }
                assert(ts.take(j + 1).drop_last() =~= ts.take(j as int));
                assert(all[t.task_index as int] == self.all_tasks@[t.task_index as int]@);
                assert(task_points(all, ts.take(j + 1)) == score + all[t.task_index as int].points);
                match score.checked_add(self.all_tasks[t.task_index].points as i64) {
                    Some(next) => {
                        score = next;
                    },
                    None => {
                        assert(!points_fit(all, v.completed[i as int].1));
                        return false;
                    },
                }
                j = j + 1;
            }
            assert(ts.take(j as int) =~= ts);
            assert(points_fit(all, v.completed[i as int].1));
            assert forall|k: int, m: int|
                0 <= k < i + 1 && 0 <= m < v.completed[k].1.len() implies #[trigger] v.completed[k].1[m].task_index < n by {
                if k == i {
                    assert(v.completed[k].1[m] == ts[m]);
                }
            }
            i = i + 1;
        }
        true
    }
}

} // verus!
