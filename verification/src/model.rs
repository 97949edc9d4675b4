use vstd::prelude::*;

verus! {

/// A recurring chore: the points it is worth, its label (labels name
/// tasks), and how many days pass between two times it falls due.
#[derive(Debug, PartialEq, Eq)]
pub struct Task {
    pub points: i8,
    pub label: String,
    pub day_interval: i8,
}

/// What a task is, as a value.
pub struct TaskView {
    pub points: i8,
    pub label: Seq<char>,
    pub day_interval: i8,
}

impl View for Task {
    type V = TaskView;

    open spec fn view(&self) -> TaskView {
        TaskView { points: self.points, label: self.label@, day_interval: self.day_interval }
    }
}

impl Task {
    /// A copy of the task.
    pub fn duplicate(&self) -> (t: Task)
        ensures
            t@ == self@,
    {
        Task { points: self.points, label: self.label.clone(), day_interval: self.day_interval }
    }
}

/// A dated reference to a task: in the queue, the day it falls due next;
/// in a user's record, the day it was completed.
#[derive(Clone, Copy, Debug, PartialEq, Eq)]
pub struct QueTask {
    pub date: i32,
    pub task_index: usize,
}

/// The tasks one user has completed.
#[derive(Debug, PartialEq, Eq)]
pub struct UserTasks {
    pub user_id: u64,
    pub tasks: Vec<QueTask>,
}

impl View for UserTasks {
    type V = (u64, Seq<QueTask>);

    open spec fn view(&self) -> (u64, Seq<QueTask>) {
        (self.user_id, self.tasks@)
    }
}

/// The display name kept for one user.
#[derive(Debug, PartialEq, Eq)]
pub struct UserName {
    pub user_id: u64,
    pub name: String,
}

impl View for UserName {
    type V = (u64, Seq<char>);

    open spec fn view(&self) -> (u64, Seq<char>) {
        (self.user_id, self.name@)
    }
}

/// The author of a message: the user's id and first name.
#[derive(Debug, PartialEq, Eq)]
pub struct Sender {
    pub id: u64,
    pub first_name: String,
}

impl View for Sender {
    type V = (u64, Seq<char>);

    open spec fn view(&self) -> (u64, Seq<char>) {
        (self.id, self.first_name@)
    }
}

pub open spec fn sender_view(sender: Option<Sender>) -> Option<(u64, Seq<char>)> {
    match sender {
        Some(s) => Some(s@),
        None => None,
    }
}

/// The whole state of the board.
///  - `all_tasks`: every chore there is; a task is referred to by its index
///    here.
///  - `current_tasks`: the chores due now, not yet done.
///  - `task_queue`: for each chore, the day it falls due next.
///  - `completed_tasks`: per user, the chores done and when.
///  - `names`: per user, the name to show.
pub struct Board {
    pub all_tasks: Vec<Task>,
    pub current_tasks: Vec<Task>,
    pub task_queue: Vec<QueTask>,
    pub completed_tasks: Vec<UserTasks>,
    pub names: Vec<UserName>,
}

pub struct BoardView {
    pub all: Seq<TaskView>,
    pub current: Seq<TaskView>,
    pub queue: Seq<QueTask>,
    pub completed: Seq<(u64, Seq<QueTask>)>,
    pub names: Seq<(u64, Seq<char>)>,
}

pub open spec fn tasks_view(s: Seq<Task>) -> Seq<TaskView> {
    s.map_values(|t: Task| t@)
}

pub open spec fn completed_view(s: Seq<UserTasks>) -> Seq<(u64, Seq<QueTask>)> {
    s.map_values(|u: UserTasks| u@)
}

pub open spec fn names_view(s: Seq<UserName>) -> Seq<(u64, Seq<char>)> {
    s.map_values(|u: UserName| u@)
}

impl View for Board {
    type V = BoardView;

    open spec fn view(&self) -> BoardView {
        BoardView {
            all: tasks_view(self.all_tasks@),
            current: tasks_view(self.current_tasks@),
            queue: self.task_queue@,
            completed: completed_view(self.completed_tasks@),
            names: names_view(self.names@),
        }
    }
}

/// No user id occurs twice.
pub open spec fn unique_users<X>(s: Seq<(u64, X)>) -> bool {
    forall|i: int, j: int| 0 <= i < s.len() && 0 <= j < s.len() && i != j ==> #[trigger] s[i].0 != #[trigger] s[j].0
}

impl BoardView {
    /// Every reference to a task names one of `all`, and each user has at
    /// most one record and at most one name.
    pub open spec fn wf(self) -> bool {
        &&& forall|i: int| 0 <= i < self.queue.len() ==> #[trigger] self.queue[i].task_index < self.all.len()
        &&& forall|i: int, j: int|
            0 <= i < self.completed.len() && 0 <= j < self.completed[i].1.len()
                ==> #[trigger] self.completed[i].1[j].task_index < self.all.len()
        &&& unique_users(self.completed)
        &&& unique_users(self.names)
    }
}

impl BoardView {
    /// Every queue entry due by `today` refers to a task.
    pub open spec fn due_entries_known(self, today: int) -> bool {
        forall|k: int|
            0 <= k < self.queue.len() && today >= self.queue[k].date ==> #[trigger] self.queue[k].task_index
                < self.all.len()
    }

    /// Every task reference completed on `day` names a task.
    pub open spec fn completions_dated_known(self, day: int) -> bool {
        forall|i: int, j: int|
            0 <= i < self.completed.len() && 0 <= j < self.completed[i].1.len() && self.completed[i].1[j].date
                == day ==> #[trigger] self.completed[i].1[j].task_index < self.all.len()
    }

    /// Every task reference completed on a representable day names a task.
    pub open spec fn calendar_completions_known(self) -> bool {
        forall|i: int, j: int|
            0 <= i < self.completed.len() && 0 <= j < self.completed[i].1.len() && crate::calendar::valid_day(
                self.completed[i].1[j].date as int,
            ) ==> #[trigger] self.completed[i].1[j].task_index < self.all.len()
    }

    /// Every completed task reference names a task.
    pub open spec fn completions_known(self) -> bool {
        forall|i: int, j: int|
            0 <= i < self.completed.len() && 0 <= j < self.completed[i].1.len()
                ==> #[trigger] self.completed[i].1[j].task_index < self.all.len()
    }
}

// ----------------------------------------------------------------------
// Looking things up

/// The index of the first task labelled `label`.
pub open spec fn first_label_index(s: Seq<TaskView>, label: Seq<char>) -> Option<int>
    decreases s.len(),
{
    if s.len() == 0 {
        None
    } else {
        match first_label_index(s.drop_last(), label) {
            Some(i) => Some(i),
            None => if s.last().label == label {
                Some(s.len() - 1)
            } else {
                None
            },
        }
    }
}

/// The index of the last task labelled `label`.
pub open spec fn last_label_index(s: Seq<TaskView>, label: Seq<char>) -> Option<int>
    decreases s.len(),
{
    if s.len() == 0 {
        None
    } else if s.last().label == label {
        Some(s.len() - 1)
    } else {
        last_label_index(s.drop_last(), label)
    }
}

/// Some task is labelled `label`.
pub open spec fn label_present(s: Seq<TaskView>, label: Seq<char>) -> bool {
    exists|i: int| 0 <= i < s.len() && #[trigger] s[i].label == label
}

/// The index of the first entry for user `id`.
pub open spec fn user_index<X>(s: Seq<(u64, X)>, id: u64) -> Option<int>
    decreases s.len(),
{
    if s.len() == 0 {
        None
    } else {
        match user_index(s.drop_last(), id) {
            Some(i) => Some(i),
            None => if s.last().0 == id {
                Some(s.len() - 1)
            } else {
                None
            },
        }
    }
}

/// Some queue entry refers to task `index`.
pub open spec fn queue_holds(q: Seq<QueTask>, index: int) -> bool {
    exists|i: int| 0 <= i < q.len() && #[trigger] q[i].task_index == index
}

pub proof fn lemma_first_label_index(s: Seq<TaskView>, label: Seq<char>)
    ensures
        match first_label_index(s, label) {
            Some(i) => 0 <= i < s.len() && s[i].label == label && forall|j: int|
                0 <= j < i ==> #[trigger] s[j].label != label,
            None => forall|j: int| 0 <= j < s.len() ==> #[trigger] s[j].label != label,
        },
    decreases s.len(),
{
    if s.len() > 0 {
        lemma_first_label_index(s.drop_last(), label);
        assert forall|j: int| 0 <= j < s.len() - 1 implies #[trigger] s[j] == s.drop_last()[j] by {}
    }
}

pub proof fn lemma_last_label_index(s: Seq<TaskView>, label: Seq<char>)
    ensures
        match last_label_index(s, label) {
            Some(i) => 0 <= i < s.len() && s[i].label == label && forall|j: int|
                i < j < s.len() ==> #[trigger] s[j].label != label,
            None => forall|j: int| 0 <= j < s.len() ==> #[trigger] s[j].label != label,
        },
    decreases s.len(),
{
    if s.len() > 0 {
        lemma_last_label_index(s.drop_last(), label);
        assert forall|j: int| 0 <= j < s.len() - 1 implies #[trigger] s[j] == s.drop_last()[j] by {}
    }
}

pub proof fn lemma_user_index<X>(s: Seq<(u64, X)>, id: u64)
    ensures
        match user_index(s, id) {
            Some(i) => 0 <= i < s.len() && s[i].0 == id && forall|j: int|
                0 <= j < i ==> #[trigger] s[j].0 != id,
            None => forall|j: int| 0 <= j < s.len() ==> #[trigger] s[j].0 != id,
        },
    decreases s.len(),
{
    if s.len() > 0 {
        lemma_user_index(s.drop_last(), id);
        assert forall|j: int| 0 <= j < s.len() - 1 implies #[trigger] s[j] == s.drop_last()[j] by {}
    }
}

/// The index of the first task labelled `label`, as `position` finds it.
pub fn position_of_label(tasks: &Vec<Task>, label: &String) -> (i: Option<usize>)
    ensures
        match i {
            Some(i) => first_label_index(tasks_view(tasks@), label@) == Some(i as int),
            None => first_label_index(tasks_view(tasks@), label@) is None,
        },
{
    let ghost s = tasks_view(tasks@);
    proof {
        lemma_first_label_index(s, label@);
    }
    let mut i: usize = 0;
    while i < tasks.len()
        invariant
            i <= tasks.len(),
            s == tasks_view(tasks@),
            forall|j: int| 0 <= j < i ==> #[trigger] s[j].label != label@,
            match first_label_index(s, label@) {
                Some(k) => 0 <= k < s.len() && s[k].label == label@ && forall|j: int|
                    0 <= j < k ==> #[trigger] s[j].label != label@,
                None => forall|j: int| 0 <= j < s.len() ==> #[trigger] s[j].label != label@,
            },
        decreases tasks.len() - i,
    {
        assert(s[i as int] == tasks@[i as int]@);
        if tasks[i].label == *label {
            assert(s[i as int].label == label@);
            return Some(i);
        }
        i = i + 1;
    }
    None
}

/// The index of the last task labelled `label`.
pub fn last_position_of_label(tasks: &Vec<Task>, label: &String) -> (i: Option<usize>)
    ensures
        match i {
            Some(i) => last_label_index(tasks_view(tasks@), label@) == Some(i as int),
            None => last_label_index(tasks_view(tasks@), label@) is None,
        },
{
    let ghost s = tasks_view(tasks@);
    proof {
        lemma_last_label_index(s, label@);
    }
    let mut found: Option<usize> = None;
    let mut i: usize = 0;
    while i < tasks.len()
        invariant
            i <= tasks.len(),
            s == tasks_view(tasks@),
            match found {
                Some(k) => k < i && s[k as int].label == label@ && forall|j: int|
                    k < j < i ==> #[trigger] s[j].label != label@,
                None => forall|j: int| 0 <= j < i ==> #[trigger] s[j].label != label@,
            },
            match last_label_index(s, label@) {
                Some(k) => 0 <= k < s.len() && s[k].label == label@ && forall|j: int|
                    k < j < s.len() ==> #[trigger] s[j].label != label@,
                None => forall|j: int| 0 <= j < s.len() ==> #[trigger] s[j].label != label@,
            },
        decreases tasks.len() - i,
    {
        assert(s[i as int] == tasks@[i as int]@);
        if tasks[i].label == *label {
            found = Some(i);
        }
        i = i + 1;
    }
    found
}

/// Whether some task is labelled `label`.
pub fn has_label(tasks: &Vec<Task>, label: &String) -> (present: bool)
    ensures
        present == label_present(tasks_view(tasks@), label@),
{
    let ghost s = tasks_view(tasks@);
    let mut i: usize = 0;
    while i < tasks.len()
        invariant
            i <= tasks.len(),
            s == tasks_view(tasks@),
            forall|j: int| 0 <= j < i ==> #[trigger] s[j].label != label@,
        decreases tasks.len() - i,
    {
        assert(s[i as int] == tasks@[i as int]@);
        if tasks[i].label == *label {
            assert(s[i as int].label == label@);
            return true;
        }
        i = i + 1;
    }
    false
}

/// Whether some queue entry refers to task `index`.
pub fn queue_has_index(queue: &Vec<QueTask>, index: usize) -> (held: bool)
    ensures
        held == queue_holds(queue@, index as int),
{
    let mut i: usize = 0;
    while i < queue.len()
        invariant
            i <= queue.len(),
            forall|j: int| 0 <= j < i ==> #[trigger] queue@[j].task_index != index,
        decreases queue.len() - i,
    {
        if queue[i].task_index == index {
            return true;
        }
        i = i + 1;
    }
    false
}

} // verus!
