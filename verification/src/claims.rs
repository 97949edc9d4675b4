use vstd::prelude::*;
use crate::calendar::{nd_now, valid_day, MAX_DAY};
use crate::model::{
    completed_view, last_label_index, last_position_of_label, lemma_last_label_index,
    lemma_user_index, names_view, sender_view, tasks_view, unique_users, user_index, Board,
    BoardView, QueTask, Sender, Task, TaskView, UserName, UserTasks,
};
use crate::parse::{parse_task_indexes, task_indexes};
use crate::report::{find_name, find_user};
use crate::schedule::refreshed;
use crate::text::{debug_str, debug_string, decimal, push_decimal};

verus! {

// ----------------------------------------------------------------------
// Names

/// The names after `set_name`: a sender with no name kept yet gets their
/// first name kept.
pub open spec fn names_after(
    names: Seq<(u64, Seq<char>)>,
    sender: Option<(u64, Seq<char>)>,
) -> Seq<(u64, Seq<char>)> {
    match sender {
        Some((id, first)) => if user_index(names, id) is Some {
            names
        } else {
            names.push((id, first))
        },
        None => names,
    }
}

/// What `set_name` answers: the name kept for the sender (their first name
/// when none was kept before), or "Unknown sender" when there is no sender.
pub open spec fn set_name_reply(
    names: Seq<(u64, Seq<char>)>,
    sender: Option<(u64, Seq<char>)>,
) -> Seq<char> {
    match sender {
        Some((id, first)) => match user_index(names, id) {
            Some(i) => names[i].1,
            None => first,
        },
        None => "Unknown sender"@,
    }
}

proof fn lemma_names_after_unique(names: Seq<(u64, Seq<char>)>, sender: Option<(u64, Seq<char>)>)
    requires
        unique_users(names),
    ensures
        unique_users(names_after(names, sender)),
{
    if let Some((id, first)) = sender {
        lemma_user_index(names, id);
        let r = names_after(names, sender);
        if user_index(names, id) is None {
            assert forall|i: int, j: int|
                0 <= i < r.len() && 0 <= j < r.len() && i != j implies #[trigger] r[i].0
                != #[trigger] r[j].0 by {
                if i < names.len() && j < names.len() {
                    assert(r[i] == names[i] && r[j] == names[j]);
                } else if i < names.len() {
                    assert(r[i] == names[i]);
                } else {
                    assert(r[j] == names[j]);
                }
            }
        }
    }
}

// ----------------------------------------------------------------------
// Completed tasks

/// The records after user `user` completes `done`: appended to their record,
/// or a new record when they have none.
pub open spec fn add_completed(
    c: Seq<(u64, Seq<QueTask>)>,
    user: u64,
    done: QueTask,
) -> Seq<(u64, Seq<QueTask>)> {
    match user_index(c, user) {
        Some(i) => c.update(i, (user, c[i].1.push(done))),
        None => c.push((user, seq![done])),
    }
}

proof fn lemma_add_completed_wf(c: Seq<(u64, Seq<QueTask>)>, user: u64, done: QueTask, n: nat)
    requires
        unique_users(c),
        forall|i: int, j: int| 0 <= i < c.len() && 0 <= j < c[i].1.len() ==> #[trigger] c[i].1[j].task_index < n,
        done.task_index < n,
    ensures
        unique_users(add_completed(c, user, done)),
        forall|i: int, j: int|
            0 <= i < add_completed(c, user, done).len() && 0 <= j < add_completed(c, user, done)[i].1.len()
                ==> #[trigger] add_completed(c, user, done)[i].1[j].task_index < n,
{
    lemma_user_index(c, user);
    let r = add_completed(c, user, done);
    match user_index(c, user) {
        Some(k) => {
            assert forall|i: int, j: int|
                0 <= i < r.len() && 0 <= j < r.len() && i != j implies #[trigger] r[i].0
                != #[trigger] r[j].0 by {
                assert(r[i].0 == c[i].0 && r[j].0 == c[j].0);
            }
            assert forall|i: int, j: int| 0 <= i < r.len() && 0 <= j < r[i].1.len() implies #[trigger] r[i].1[j].task_index < n by {
                if i != k {
                    assert(r[i] == c[i]);
                    assert(c[i].1[j].task_index < n);
                } else if j < c[k].1.len() {
                    assert(r[i].1[j] == c[k].1[j]);
                    assert(c[k].1[j].task_index < n);
                } else {
                    assert(r[i].1[j] == done);
                }
            }
        },
        None => {
            assert forall|i: int, j: int|
                0 <= i < r.len() && 0 <= j < r.len() && i != j implies #[trigger] r[i].0
                != #[trigger] r[j].0 by {
                if i < c.len() && j < c.len() {
                    assert(r[i] == c[i] && r[j] == c[j]);
                } else if i < c.len() {
                    assert(r[i] == c[i]);
                } else {
                    assert(r[j] == c[j]);
                }
            }
            assert forall|i: int, j: int| 0 <= i < r.len() && 0 <= j < r[i].1.len() implies #[trigger] r[i].1[j].task_index < n by {
                if i < c.len() {
                    assert(r[i] == c[i]);
                    assert(c[i].1[j].task_index < n);
                }
            }
        },
    }
}

// ----------------------------------------------------------------------
// Claiming

/// What a claim works on: the list, the records, the names and the reply
/// so far.
pub struct ClaimState {
    pub current: Seq<TaskView>,
    pub completed: Seq<(u64, Seq<QueTask>)>,
    pub names: Seq<(u64, Seq<char>)>,
    pub out: Seq<char>,
}

/// The reply's last line.
pub open spec fn claim_footer() -> Seq<char> {
    "Use /score to see the score, or /list to see the remaining tasks."@
}

/// The reply when the message names no task number.
pub open spec fn no_claim_reply() -> Seq<char> {
    "No valid tasks claimed. Check if you claimed an avalible task. If you claimed multiple tasks, they should be split by a whitespace (/claim X Y Z)."@
}

/// Claiming task `id`: the last task on the list with its label leaves the
/// list and, when there is a sender, goes into the sender's record dated
/// `today`; the sender's name is kept.  The reply for it goes in front of
/// the replies so far, `sep` between them.  When no task on the list has
/// the label, only the reply says so.
pub open spec fn claim_one(
    all: Seq<TaskView>,
    today: i32,
    sender: Option<(u64, Seq<char>)>,
    sep: Seq<char>,
    st: ClaimState,
    id: usize,
) -> ClaimState {
    match last_label_index(st.current, all[id as int].label) {
        Some(i) => {
            let t = st.current[i];
            let names = names_after(st.names, sender);
            match sender {
                Some((user, _)) => ClaimState {
                    current: st.current.remove(i),
                    completed: add_completed(st.completed, user, QueTask { date: today, task_index: id }),
                    names,
                    out: "Claimed task "@ + debug_str(t.label) + "! Awarded "@ + decimal(t.points as int)
                        + " points! "@ + sep + st.out,
                },
                None => ClaimState {
                    current: st.current.remove(i),
                    completed: st.completed,
                    names,
                    out: "Unable to extract user for task "@ + debug_str(t.label) + "! :("@ + sep + st.out,
                },
            }
        },
        None => ClaimState {
            current: st.current,
            completed: st.completed,
            names: st.names,
            out: "Unable to claim task (can't find task)!"@ + sep + st.out,
        },
    }
}

/// The state after claiming the first `k` of `ids`, in order.
pub open spec fn claim_upto(
    all: Seq<TaskView>,
    today: i32,
    sender: Option<(u64, Seq<char>)>,
    sep: Seq<char>,
    st: ClaimState,
    ids: Seq<usize>,
    k: nat,
) -> ClaimState
    decreases k,
{
    if k == 0 {
        st
    } else {
        claim_one(all, today, sender, sep, claim_upto(all, today, sender, sep, st, ids, (k - 1) as nat), ids[k - 1])
    }
}

/// The board and the reply after a claim message `text` from `sender` on
/// day `today`: each task number it names is claimed in turn, then the
/// board is refreshed.  A message that names no number changes nothing.
pub open spec fn claim_result(
    b: BoardView,
    sender: Option<(u64, Seq<char>)>,
    text: Seq<char>,
    today: i32,
) -> (BoardView, Seq<char>) {
    let ids = task_indexes(text);
    if ids.len() == 0 {
        (b, no_claim_reply())
    } else {
        let sep = if ids.len() > 1 {
            "\n"@
        } else {
            seq![]
        };
        let st0 = ClaimState { current: b.current, completed: b.completed, names: b.names, out: claim_footer() };
        let st = claim_upto(b.all, today, sender, sep, st0, ids, ids.len());
        (
            refreshed(
                BoardView { all: b.all, current: st.current, queue: b.queue, completed: st.completed, names: st.names },
                today as int,
            ),
            st.out,
        )
    }
}

/// The list after claiming the first `k` of `ids`: each claim takes off
/// the last task with the claimed task's label, if any.
pub open spec fn list_after_claims(all: Seq<TaskView>, current: Seq<TaskView>, ids: Seq<usize>, k: nat) -> Seq<
    TaskView,
>
    decreases k,
{
    if k == 0 {
        current
    } else {
        let c = list_after_claims(all, current, ids, (k - 1) as nat);
        match last_label_index(c, all[ids[k - 1] as int].label) {
            Some(i) => c.remove(i),
            None => c,
        }
    }
}

/// Claim `k` of `ids` looks its task up: only while the list is not empty
/// is the task number used, and then it must name a task.
pub open spec fn claimable(all: Seq<TaskView>, current: Seq<TaskView>, ids: Seq<usize>, k: int) -> bool {
    list_after_claims(all, current, ids, k as nat).len() > 0 ==> ids[k] < all.len()
}

/// Every task number that is looked up names a task.
pub open spec fn claims_in_range(all: Seq<TaskView>, current: Seq<TaskView>, ids: Seq<usize>) -> bool {
    forall|k: int| 0 <= k < ids.len() ==> #[trigger] claimable(all, current, ids, k)
}

proof fn lemma_claim_upto_list(
    all: Seq<TaskView>,
    today: i32,
    sender: Option<(u64, Seq<char>)>,
    sep: Seq<char>,
    st: ClaimState,
    ids: Seq<usize>,
    k: nat,
)
    requires
        k <= ids.len(),
    ensures
        claim_upto(all, today, sender, sep, st, ids, k).current == list_after_claims(all, st.current, ids, k),
    decreases k,
{
    if k > 0 {
        lemma_claim_upto_list(all, today, sender, sep, st, ids, (k - 1) as nat);
    }
}

// ----------------------------------------------------------------------
// Passing

/// The list and the reply after passing task `index`: the last task on the
/// list with its label leaves the list.  (On an empty list nothing is
/// looked up.)
pub open spec fn pass_result(b: BoardView, index: int) -> (Seq<TaskView>, Seq<char>) {
    match last_label_index(b.current, b.all[index].label) {
        Some(i) => (b.current.remove(i), "Removed task from list"@),
        None => (b.current, "Unable to claim task (can't find task)!"@),
    }
}

impl Board {
    /// Keeps the sender's first name unless a name is kept for them already,
    /// and answers with the name kept, or "Unknown sender" when there is no
    /// sender.
    pub fn set_name(&mut self, sender: &Option<Sender>) -> (name: String)
        ensures
            old(self)@.wf() ==> final(self)@.wf(),
            final(self)@ == (BoardView { names: names_after(old(self)@.names, sender_view(*sender)), ..old(self)@ }),
            name@ == set_name_reply(old(self)@.names, sender_view(*sender)),
    {
        proof {
            if self@.wf() {
                lemma_names_after_unique(self@.names, sender_view(*sender));
            }
        }
        match sender {
            Some(s) => {
                proof {
                    lemma_user_index(self@.names, s.id);
                }
                match find_name(&self.names, s.id) {
                    Some(i) => {
                        assert(self@.names[i as int] == self.names@[i as int]@);
                        self.names[i].name.clone()
                    },
                    None => {
                        let ghost before = self.names@;
                        self.names.push(UserName { user_id: s.id, name: s.first_name.clone() });
                        assert(names_view(self.names@) =~= names_view(before).push(s@));
                        s.first_name.clone()
                    },
                }
            },
            None => {
                let mut name = String::new();
                name.append("Unknown sender");
                assert(name@ =~= "Unknown sender"@);
                name
            },
        }
    }

    /// Records that user `user` completed `done`.
    fn add_completed(&mut self, user: u64, done: QueTask)
        ensures
            old(self)@.wf() && done.task_index < old(self)@.all.len() ==> final(self)@.wf(),
            final(self)@ == (BoardView { completed: add_completed(old(self)@.completed, user, done), ..old(self)@ }),
    {
        proof {
            if self@.wf() && done.task_index < self@.all.len() {
                lemma_add_completed_wf(self@.completed, user, done, self@.all.len());
            }
            lemma_user_index(self@.completed, user);
        }
        let ghost before = self.completed_tasks@;
        match find_user(&self.completed_tasks, user) {
            Some(i) => {
                let mut record = self.completed_tasks.remove(i);
                record.tasks.push(done);
                self.completed_tasks.insert(i, record);
                assert(completed_view(self.completed_tasks@) =~= completed_view(before).update(
                    i as int,
                    (user, completed_view(before)[i as int].1.push(done)),
                ));
            },
            None => {
                let mut tasks: Vec<QueTask> = Vec::new();
                tasks.push(done);
                self.completed_tasks.push(UserTasks { user_id: user, tasks });
                assert(completed_view(self.completed_tasks@) =~= completed_view(before).push(
                    (user, seq![done]),
                ));
            },
        }
    }

    /// Takes task `task_index` off the list: the last task on the list with
    /// its label is removed.
    pub fn pass_task(&mut self, task_index: i8) -> (reply: String)
        requires
            old(self)@.current.len() > 0 ==> 0 <= task_index < old(self)@.all.len(),
        ensures
            old(self)@.wf() ==> final(self)@.wf(),
            final(self)@ == (BoardView { current: pass_result(old(self)@, task_index as int).0, ..old(self)@ }),
            reply@ == pass_result(old(self)@, task_index as int).1,
    {
        let mut reply = String::new();
        if self.current_tasks.len() == 0 {
            reply.append("Unable to claim task (can't find task)!");
            assert(reply@ =~= "Unable to claim task (can't find task)!"@);
            return reply;
        }
        let index = task_index as usize;
        assert(self@.all[index as int] == self.all_tasks@[index as int]@);
        proof {
            lemma_last_label_index(self@.current, self@.all[index as int].label);
        }
        match last_position_of_label(&self.current_tasks, &self.all_tasks[index].label) {
            Some(i) => {
                let ghost before = self.current_tasks@;
                self.current_tasks.remove(i);
                assert(tasks_view(self.current_tasks@) =~= tasks_view(before).remove(i as int));
                reply.append("Removed task from list");
                assert(reply@ =~= "Removed task from list"@);
            },
            None => {
                reply.append("Unable to claim task (can't find task)!");
                assert(reply@ =~= "Unable to claim task (can't find task)!"@);
            },
        }
        reply
    }

    /// How many of `ids`, from the first, can be claimed before one would
    /// look up a task number that names no task.
    pub fn claimable_count(&self, ids: &Vec<usize>) -> (n: usize)
        ensures
            n <= ids.len(),
            forall|k: int| 0 <= k < n ==> #[trigger] claimable(self@.all, self@.current, ids@, k),
            n < ids.len() ==> !claimable(self@.all, self@.current, ids@, n as int),
    {
        let ghost all = self@.all;
        let ghost c0 = self@.current;
        let mut list: Vec<Task> = Vec::new();
        let mut m: usize = 0;
        while m < self.current_tasks.len()
            invariant
                m <= self.current_tasks.len(),
                c0 == self@.current,
                tasks_view(list@) == c0.take(m as int),
            decreases self.current_tasks.len() - m,
        {
            let ghost before = list@;
            list.push(self.current_tasks[m].duplicate());
            assert(tasks_view(list@) =~= tasks_view(before).push(c0[m as int]));
            assert(c0.take(m + 1) =~= c0.take(m as int).push(c0[m as int]));
            m = m + 1;
        }
        assert(c0.take(m as int) =~= c0);
        let mut k: usize = 0;
        while k < ids.len()
            invariant
                k <= ids.len(),
                all == self@.all,
                c0 == self@.current,
                tasks_view(list@) == list_after_claims(all, c0, ids@, k as nat),
                forall|j: int| 0 <= j < k ==> #[trigger] claimable(all, c0, ids@, j),
            decreases ids.len() - k,
        {
            if list.len() > 0 {
                let id = ids[k];
                if id >= self.all_tasks.len() {
                    return k;
                }
                assert(all[id as int] == self.all_tasks@[id as int]@);
                match last_position_of_label(&list, &self.all_tasks[id].label) {
                    Some(i) => {
                        proof {
                            crate::model::lemma_last_label_index(tasks_view(list@), all[id as int].label);
                        }
                        let ghost before = list@;
                        list.remove(i);
                        assert(tasks_view(list@) =~= tasks_view(before).remove(i as int));
                    },
                    None => {},
                }
            }
            k = k + 1;
        }
        k
    }

    /// Claims the tasks `ids`, in order, for `sender` on day `today`.  The
    /// reply has one line per number, the last number's first, `sep`
    /// between them, above the closing line.  Nothing is refreshed.
    pub fn claim_each(&mut self, sender: &Option<Sender>, ids: &Vec<usize>, sep: &str, today: i32) -> (reply: String)
        requires
            claims_in_range(old(self)@.all, old(self)@.current, ids@),
        ensures
            old(self)@.wf() ==> final(self)@.wf(),
            ({
                let b = old(self)@;
                let st0 = ClaimState { current: b.current, completed: b.completed, names: b.names, out: claim_footer() };
                let st = claim_upto(b.all, today, sender_view(*sender), sep@, st0, ids@, ids.len() as nat);
                &&& final(self)@ == (BoardView { current: st.current, completed: st.completed, names: st.names, ..b })
                &&& reply@ == st.out
            }),
    {
        let ghost sv = sender_view(*sender);
        let ghost all = self@.all;
        let ghost b0 = self@;
        let mut out = String::new();
        out.append("Use /score to see the score, or /list to see the remaining tasks.");
        let ghost st0 = ClaimState { current: b0.current, completed: b0.completed, names: b0.names, out: claim_footer() };
        assert(out@ =~= claim_footer());
        let mut k: usize = 0;
        while k < ids.len()
            invariant
                k <= ids.len(),
                claims_in_range(all, b0.current, ids@),
                sv == sender_view(*sender),
                b0 == old(self)@,
                st0.current == b0.current,
                b0.wf() ==> self@.wf(),
                self@.all == all,
                self@.queue == b0.queue,
                (ClaimState { current: self@.current, completed: self@.completed, names: self@.names, out: out@ })
                    == claim_upto(all, today, sv, sep@, st0, ids@, k as nat),
            decreases ids.len() - k,
        {
            let ghost st = ClaimState { current: self@.current, completed: self@.completed, names: self@.names, out: out@ };
            let id = ids[k];
            proof {
                lemma_claim_upto_list(all, today, sv, sep@, st0, ids@, k as nat);
                assert(claimable(all, b0.current, ids@, k as int));
            }
            if self.current_tasks.len() == 0 {
                let mut reply = String::new();
                reply.append("Unable to claim task (can't find task)!");
                reply.append(sep);
                reply.append(out.as_str());
                out = reply;
                let ghost next = claim_one(all, today, sv, sep@, st, id);
                assert(out@ =~= next.out);
            } else {
                assert(self@.current.len() == self.current_tasks.len());
                assert(claim_upto(all, today, sv, sep@, st0, ids@, k as nat).current == self@.current);
                assert(list_after_claims(all, b0.current, ids@, k as nat).len() > 0);
                assert(id == ids@[k as int]);
                assert(id < all.len());
                assert(all[id as int] == self.all_tasks@[id as int]@);
                proof {
                    lemma_last_label_index(self@.current, all[id as int].label);
                }
                match last_position_of_label(&self.current_tasks, &self.all_tasks[id].label) {
                    Some(i) => {
                        let claimed = self.current_tasks[i].duplicate();
                        assert(claimed@ == st.current[i as int]);
                        self.set_name(sender);
                        let mut reply = String::new();
                        match sender {
                            Some(s) => {
                                self.add_completed(s.id, QueTask { date: today, task_index: id });
                                reply.append("Claimed task ");
                                let quoted = debug_string(claimed.label.as_str());
                                reply.append(quoted.as_str());
                                reply.append("! Awarded ");
                                push_decimal(&mut reply, claimed.points as i64);
                                reply.append(" points! ");
                            },
                            None => {
                                reply.append("Unable to extract user for task ");
                                let quoted = debug_string(claimed.label.as_str());
                                reply.append(quoted.as_str());
                                reply.append("! :(");
                            },
                        }
                        let ghost before = self.current_tasks@;
                        self.current_tasks.remove(i);
                        assert(tasks_view(self.current_tasks@) =~= tasks_view(before).remove(i as int));
                        reply.append(sep);
                        reply.append(out.as_str());
                        out = reply;
                        let ghost next = claim_one(all, today, sv, sep@, st, id);
                        assert(out@ =~= next.out);
                    },
                    None => {
                        let mut reply = String::new();
                        reply.append("Unable to claim task (can't find task)!");
                        reply.append(sep);
                        reply.append(out.as_str());
                        out = reply;
                        let ghost next = claim_one(all, today, sv, sep@, st, id);
                        assert(out@ =~= next.out);
                    },
                }
            }
            k = k + 1;
        }
        out
    }

    /// Claims the tasks whose numbers the message `text` names, in order,
    /// for `sender` on day `today`, then refreshes the board.  The reply has
    /// one line per number, the last number's first, above a closing line.
    pub fn claim_task_on(&mut self, sender: &Option<Sender>, text: &str, today: i32) -> (reply: String)
        requires
            claims_in_range(old(self)@.all, old(self)@.current, task_indexes(text@)),
            task_indexes(text@).len() > 0 ==> old(self)@.due_entries_known(today as int),
        ensures
            old(self)@.wf() ==> final(self)@.wf(),
            final(self)@ == claim_result(old(self)@, sender_view(*sender), text@, today).0,
            reply@ == claim_result(old(self)@, sender_view(*sender), text@, today).1,
    {
        let ids = parse_task_indexes(text);
        if ids.len() < 1 {
            let mut reply = String::new();
            reply.append(
                "No valid tasks claimed. Check if you claimed an avalible task. If you claimed multiple tasks, they should be split by a whitespace (/claim X Y Z).",
            );
            assert(reply@ =~= no_claim_reply());
            return reply;
        }
        proof {
            reveal_strlit("");
        }
        let sep: &str = if ids.len() > 1 {
            "\n"
        } else {
            ""
        };
        assert(sep@ == (if ids.len() > 1 { "\n"@ } else { Seq::<char>::empty() }));
        let out = self.claim_each(sender, &ids, sep, today);
        self.refresh_tasks_on(today);
        out
    }

    /// `claim_task_on`, for today's date read from the clock.
    pub fn claim_task(&mut self, sender: &Option<Sender>, text: &str) -> (reply: String)
        requires
            claims_in_range(old(self)@.all, old(self)@.current, task_indexes(text@)),
            task_indexes(text@).len() > 0 ==> old(self)@.due_entries_known(MAX_DAY as int),
        ensures
            old(self)@.wf() ==> final(self)@.wf(),
            exists|today: i32|
                valid_day(today as int) && final(self)@ == claim_result(old(self)@, sender_view(*sender), text@, today).0
                    && reply@ == claim_result(old(self)@, sender_view(*sender), text@, today).1,
    {
        let today = nd_now();
        assert(task_indexes(text@).len() > 0 ==> self@.due_entries_known(today as int));
        self.claim_task_on(sender, text, today)
    }
}

} // verus!
