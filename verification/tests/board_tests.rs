use chore_board::calendar::{MAX_DAY, MIN_DAY};
use chrono::{Datelike, Utc};
use chore_board::model::{Board, QueTask, Sender, Task, UserName, UserTasks};

const T: i32 = 738886; // 2024-01-01

fn task(points: i8, label: &str, day_interval: i8) -> Task {
    Task { points, label: label.to_string(), day_interval }
}

fn qt(date: i32, task_index: usize) -> QueTask {
    QueTask { date, task_index }
}

fn all_tasks() -> Vec<Task> {
    vec![task(5, "Dishes", 1), task(3, "Trash", 7), task(10, "Bathroom", 14)]
}

fn board(current: Vec<Task>, queue: Vec<QueTask>) -> Board {
    Board { all_tasks: all_tasks(), current_tasks: current, task_queue: queue, completed_tasks: vec![], names: vec![] }
}

fn far_queue() -> Vec<QueTask> {
    vec![qt(T + 100, 0), qt(T + 100, 1), qt(T + 100, 2)]
}

fn labels(tasks: &[Task]) -> Vec<&str> {
    tasks.iter().map(|t| t.label.as_str()).collect()
}

fn ann() -> Option<Sender> {
    Some(Sender { id: 7, first_name: "Ann".to_string() })
}

// ---------------------------------------------------------------- filling

#[test]
fn fill_que_queues_every_task_from_yesterday() {
    let mut b = board(vec![], vec![]);
    b.fill_que_on(T);
    assert_eq!(b.task_queue, vec![qt(T, 0), qt(T + 6, 1), qt(T + 13, 2)]);
    assert!(b.current_tasks.is_empty());
}

#[test]
fn fill_que_keeps_existing_entries_and_skips_queued_tasks() {
    let mut b = board(vec![], vec![qt(T + 50, 1)]);
    b.fill_que_on(T);
    assert_eq!(b.task_queue, vec![qt(T + 50, 1), qt(T, 0), qt(T + 13, 2)]);
}

#[test]
fn fill_que_uses_first_index_of_a_repeated_label() {
    let mut b = board(vec![], vec![]);
    b.all_tasks = vec![task(1, "A", 1), task(2, "B", 2), task(3, "A", 3)];
    b.fill_que_on(T);
    assert_eq!(b.task_queue, vec![qt(T, 0), qt(T + 1, 1)]);
}

#[test]
fn fill_que_on_the_first_representable_day_adds_nothing() {
    let mut b = board(vec![], vec![]);
    b.fill_que_on(MIN_DAY);
    assert!(b.task_queue.is_empty());
}

#[test]
fn fill_que_skips_dates_beyond_the_calendar() {
    let mut b = board(vec![], vec![]);
    b.fill_que_on(MAX_DAY);
    assert_eq!(b.task_queue, vec![qt(MAX_DAY, 0)]);
}

#[test]
fn init_queue_fills_only_a_queue_of_the_wrong_length() {
    let mut b = board(vec![], vec![qt(T + 1, 2), qt(T + 1, 2), qt(T + 1, 2)]);
    b.init_queue_on(T);
    assert_eq!(b.task_queue, vec![qt(T + 1, 2), qt(T + 1, 2), qt(T + 1, 2)]);
    let mut b = board(vec![], vec![qt(T + 1, 2)]);
    b.init_queue_on(T);
    assert_eq!(b.task_queue, vec![qt(T + 1, 2), qt(T, 0), qt(T + 6, 1)]);
}

// ---------------------------------------------------------------- refreshing

#[test]
fn refresh_lists_due_tasks_and_reschedules_them() {
    let mut b = board(vec![], vec![qt(T, 0), qt(T + 6, 1), qt(T - 3, 2)]);
    b.refresh_tasks_on(T);
    assert_eq!(labels(&b.current_tasks), vec!["Dishes", "Bathroom"]);
    assert_eq!(b.task_queue, vec![qt(T + 1, 0), qt(T + 6, 1), qt(T + 11, 2)]);
}

#[test]
fn refresh_does_not_list_a_label_twice() {
    let mut b = board(vec![task(5, "Dishes", 1)], vec![qt(T, 0), qt(T + 6, 1), qt(T + 1, 2)]);
    b.refresh_tasks_on(T);
    assert_eq!(labels(&b.current_tasks), vec!["Dishes"]);
    assert_eq!(b.task_queue[0], qt(T + 1, 0));
}

#[test]
fn refresh_moves_an_overdue_entry_by_one_interval_only() {
    let mut b = board(vec![], vec![qt(T - 10, 0), qt(T + 6, 1), qt(T + 6, 2)]);
    b.refresh_tasks_on(T);
    assert_eq!(b.task_queue[0], qt(T - 9, 0));
}

#[test]
fn refresh_keeps_an_entry_whose_next_date_is_out_of_range() {
    let mut b = board(vec![], vec![qt(MAX_DAY, 0), qt(MAX_DAY, 1), qt(MAX_DAY, 2)]);
    b.refresh_tasks_on(MAX_DAY);
    assert_eq!(b.task_queue, vec![qt(MAX_DAY, 0), qt(MAX_DAY, 1), qt(MAX_DAY, 2)]);
    assert_eq!(labels(&b.current_tasks), vec!["Dishes", "Trash", "Bathroom"]);
}

#[test]
fn refresh_follows_a_negative_interval() {
    let mut b = board(vec![], vec![qt(T, 0)]);
    b.all_tasks = vec![task(1, "Odd", -2)];
    b.refresh_tasks_on(T);
    assert_eq!(b.task_queue, vec![qt(T - 2, 0)]);
}

#[test]
fn refresh_fills_a_broken_queue_first() {
    let mut b = board(vec![], vec![]);
    b.refresh_tasks_on(T);
    assert_eq!(labels(&b.current_tasks), vec!["Dishes"]);
    assert_eq!(b.task_queue, vec![qt(T + 1, 0), qt(T + 6, 1), qt(T + 13, 2)]);
}

#[test]
fn law_refresh_keeps_labels_distinct_over_many_days() {
    let mut b = board(vec![], vec![]);
    for d in 0..40 {
        b.refresh_tasks_on(T + d);
        let mut seen = labels(&b.current_tasks);
        seen.sort();
        seen.dedup();
        assert_eq!(seen.len(), b.current_tasks.len());
    }
    assert_eq!(labels(&b.current_tasks), vec!["Dishes", "Trash", "Bathroom"]);
}

#[test]
fn law_refresh_lists_due_tasks() {
    let mut b = board(vec![], vec![qt(T - 1, 2), qt(T, 1), qt(T + 1, 0)]);
    b.refresh_tasks_on(T);
    assert!(b.current_tasks.iter().any(|t| t.label == "Bathroom"));
    assert!(b.current_tasks.iter().any(|t| t.label == "Trash"));
    assert!(!b.current_tasks.iter().any(|t| t.label == "Dishes"));
}

#[test]
fn law_fill_covers_tasks() {
    let mut b = board(vec![], vec![qt(T + 9, 2)]);
    b.fill_que_on(T);
    for index in 0..3 {
        assert!(b.task_queue.iter().any(|e| e.task_index == index));
    }
    assert_eq!(b.task_queue[0], qt(T + 9, 2));
}

// ---------------------------------------------------------------- reports

#[test]
fn today_completed_keeps_todays_entries_of_each_user() {
    let mut b = board(vec![], far_queue());
    b.completed_tasks = vec![
        UserTasks { user_id: 1, tasks: vec![qt(T, 0), qt(T - 1, 1), qt(T, 2)] },
        UserTasks { user_id: 2, tasks: vec![qt(T - 1, 0)] },
    ];
    let done = b.get_today_completed_tasks_on(T);
    assert_eq!(done, vec![UserTasks { user_id: 1, tasks: vec![qt(T, 0), qt(T, 2)] }]);
}

#[test]
fn notification_lists_tasks_and_todays_completions() {
    let mut b = board(vec![task(3, "Trash", 7), task(1, "Gone", 1), task(5, "Dishes", 1)], far_queue());
    b.completed_tasks = vec![
        UserTasks { user_id: 1, tasks: vec![qt(T, 0), qt(T - 1, 1)] },
        UserTasks { user_id: 2, tasks: vec![qt(T, 2)] },
    ];
    b.names = vec![UserName { user_id: 1, name: "Ann".to_string() }];
    let text = b.construct_notification_text_on(T);
    assert_eq!(
        text,
        "Good morning! Today's tasks:\n\n1\t\t🟡\t3p\t|\tTrash\n\t\t🟡\t1p\t|\tGone\n0\t\t🟡\t5p\t|\tDishes\n\nCompleted tasks: 💪🤙\n\t\t\t\t🟢\tDishes (Ann)\n\t\t\t\t🟢\tBathroom (Unknown user)"
    );
}

#[test]
fn notification_lists_tasks_whose_label_is_not_defined() {
    let mut b = board(vec![task(4, "Windows", 30)], vec![]);
    b.all_tasks.clear();
    assert_eq!(b.construct_notification_text_on(T), "Good morning! Today's tasks:\n\n\t\t🟡\t4p\t|\tWindows");
}

#[test]
fn notification_without_completions_has_no_completed_section() {
    let mut b = board(vec![task(-2, "Dishes", 1)], far_queue());
    b.completed_tasks = vec![UserTasks { user_id: 1, tasks: vec![qt(T - 1, 0)] }];
    assert_eq!(b.construct_notification_text_on(T), "Good morning! Today's tasks:\n\n0\t\t🟡\t-2p\t|\tDishes");
    let empty = board(vec![], far_queue());
    assert_eq!(empty.construct_notification_text_on(T), "Good morning! Today's tasks:\n");
}

#[test]
fn score_adds_up_points_per_user() {
    let mut b = board(vec![], far_queue());
    b.all_tasks.push(task(-4, "Penalty", 1));
    b.completed_tasks = vec![
        UserTasks { user_id: 1, tasks: vec![qt(T, 0), qt(T - 9, 1), qt(T, 3)] },
        UserTasks { user_id: 2, tasks: vec![qt(T, 2)] },
        UserTasks { user_id: 3, tasks: vec![] },
    ];
    b.names = vec![UserName { user_id: 1, name: "Ann".to_string() }];
    assert_eq!(b.display_score(), "\nAnn -> 4\nUnknown user -> 10\nUnknown user -> 0");
    assert_eq!(board(vec![], far_queue()).display_score(), "");
}

// ---------------------------------------------------------------- names

#[test]
fn set_name_keeps_the_first_name_once() {
    let mut b = board(vec![], far_queue());
    assert_eq!(b.set_name(&ann()), "Ann");
    assert_eq!(b.names, vec![UserName { user_id: 7, name: "Ann".to_string() }]);
    assert_eq!(b.set_name(&Some(Sender { id: 7, first_name: "Annie".to_string() })), "Ann");
    assert_eq!(b.names.len(), 1);
    assert_eq!(b.set_name(&None), "Unknown sender");
    assert_eq!(b.names.len(), 1);
}

#[test]
fn get_name_falls_back_to_unknown_user() {
    let mut b = board(vec![], far_queue());
    b.names = vec![UserName { user_id: 1, name: "Ann".to_string() }];
    assert_eq!(b.get_name(1), "Ann");
    assert_eq!(b.get_name(2), "Unknown user");
}

#[test]
fn law_set_name_then_get_name() {
    let mut b = board(vec![], far_queue());
    let shown = b.set_name(&Some(Sender { id: 9, first_name: "Bo".to_string() }));
    assert_eq!(b.get_name(9), shown);
    let again = b.set_name(&Some(Sender { id: 9, first_name: "Other".to_string() }));
    assert_eq!(b.get_name(9), again);
    assert_eq!(again, "Bo");
}

// ---------------------------------------------------------------- passing

#[test]
fn pass_removes_the_last_task_with_the_label() {
    let mut b = board(vec![task(5, "Dishes", 1), task(3, "Trash", 7), task(6, "Dishes", 2)], far_queue());
    assert_eq!(b.pass_task(0), "Removed task from list");
    assert_eq!(b.current_tasks, vec![task(5, "Dishes", 1), task(3, "Trash", 7)]);
    assert_eq!(b.pass_task(2), "Unable to claim task (can't find task)!");
    assert_eq!(b.current_tasks.len(), 2);
}

#[test]
fn law_pass_removes_label() {
    let mut b = board(vec![task(5, "Dishes", 1), task(3, "Trash", 7)], far_queue());
    b.pass_task(1);
    assert!(!b.current_tasks.iter().any(|t| t.label == "Trash"));
    assert_eq!(labels(&b.current_tasks), vec!["Dishes"]);
}

// ---------------------------------------------------------------- claiming

const FOOTER: &str = "Use /score to see the score, or /list to see the remaining tasks.";

#[test]
fn claim_one_task() {
    let mut b = board(vec![task(5, "Dishes", 1), task(3, "Trash", 7)], far_queue());
    let reply = b.claim_task_on(&ann(), "0", T);
    assert_eq!(reply, format!("Claimed task \"Dishes\"! Awarded 5 points! {}", FOOTER));
    assert_eq!(labels(&b.current_tasks), vec!["Trash"]);
    assert_eq!(b.completed_tasks, vec![UserTasks { user_id: 7, tasks: vec![qt(T, 0)] }]);
    assert_eq!(b.names, vec![UserName { user_id: 7, name: "Ann".to_string() }]);
}

#[test]
fn claim_several_tasks_puts_the_last_reply_first() {
    let mut b = board(vec![task(5, "Dishes", 1), task(3, "Trash", 7)], far_queue());
    let reply = b.claim_task_on(&ann(), "1 0 2", T);
    assert_eq!(
        reply,
        format!(
            "Unable to claim task (can't find task)!\nClaimed task \"Dishes\"! Awarded 5 points! \nClaimed task \"Trash\"! Awarded 3 points! \n{}",
            FOOTER
        )
    );
    assert!(b.current_tasks.is_empty());
    assert_eq!(b.completed_tasks, vec![UserTasks { user_id: 7, tasks: vec![qt(T, 1), qt(T, 0)] }]);
}

#[test]
fn claim_appends_to_an_existing_record() {
    let mut b = board(vec![task(5, "Dishes", 1)], far_queue());
    b.completed_tasks = vec![
        UserTasks { user_id: 1, tasks: vec![qt(T - 1, 2)] },
        UserTasks { user_id: 7, tasks: vec![qt(T - 2, 1)] },
    ];
    b.claim_task_on(&ann(), "0", T);
    assert_eq!(
        b.completed_tasks,
        vec![UserTasks { user_id: 1, tasks: vec![qt(T - 1, 2)] }, UserTasks { user_id: 7, tasks: vec![qt(T - 2, 1), qt(T, 0)] }]
    );
}

#[test]
fn claim_without_numbers_changes_nothing() {
    let mut b = board(vec![task(5, "Dishes", 1)], vec![]);
    let reply = b.claim_task_on(&ann(), "dishes", T);
    assert_eq!(
        reply,
        "No valid tasks claimed. Check if you claimed an avalible task. If you claimed multiple tasks, they should be split by a whitespace (/claim X Y Z)."
    );
    assert_eq!(labels(&b.current_tasks), vec!["Dishes"]);
    assert!(b.task_queue.is_empty());
    assert!(b.completed_tasks.is_empty());
    assert!(b.names.is_empty());
}

#[test]
fn claim_reads_numbers_up_to_the_first_word_that_is_not_one() {
    let mut b = board(vec![task(5, "Dishes", 1), task(3, "Trash", 7)], far_queue());
    let reply = b.claim_task_on(&ann(), "+1 x 0", T);
    assert_eq!(reply, format!("Claimed task \"Trash\"! Awarded 3 points! {}", FOOTER));
    assert_eq!(labels(&b.current_tasks), vec!["Dishes"]);
}

#[test]
fn claim_without_sender_removes_the_task_but_records_nothing() {
    let mut b = board(vec![task(5, "Dishes", 1)], far_queue());
    let reply = b.claim_task_on(&None, "0", T);
    assert_eq!(reply, format!("Unable to extract user for task \"Dishes\"! :({}", FOOTER));
    assert!(b.current_tasks.is_empty());
    assert!(b.completed_tasks.is_empty());
    assert!(b.names.is_empty());
}

#[test]
fn claim_quotes_labels_as_debug_does() {
    let mut b = board(vec![], far_queue());
    b.all_tasks = vec![task(2, "Say \"hi\"\\now", 1), task(1, "Tab\there", 1), task(1, "x", 1)];
    b.current_tasks = vec![task(2, "Say \"hi\"\\now", 1), task(1, "Tab\there", 1)];
    let reply = b.claim_task_on(&ann(), "0 1", T);
    assert_eq!(
        reply,
        format!("Claimed task \"Tab\\there\"! Awarded 1 points! \nClaimed task \"Say \\\"hi\\\"\\\\now\"! Awarded 2 points! \n{}", FOOTER)
    );
}

#[test]
fn claim_refreshes_afterwards() {
    let mut b = board(vec![task(5, "Dishes", 1)], vec![qt(T, 0), qt(T + 6, 1), qt(T + 13, 2)]);
    b.claim_task_on(&ann(), "0", T);
    assert_eq!(labels(&b.current_tasks), vec!["Dishes"]);
    assert_eq!(b.task_queue[0], qt(T + 1, 0));
    assert_eq!(b.completed_tasks, vec![UserTasks { user_id: 7, tasks: vec![qt(T, 0)] }]);
}

#[test]
fn claim_of_an_unlisted_task_only_answers() {
    let mut b = board(vec![task(3, "Trash", 7)], far_queue());
    let reply = b.claim_task_on(&ann(), "0", T);
    assert_eq!(reply, format!("Unable to claim task (can't find task)!{}", FOOTER));
    assert_eq!(labels(&b.current_tasks), vec!["Trash"]);
    assert!(b.completed_tasks.is_empty());
    assert!(b.names.is_empty());
}

#[test]
fn law_claim_awards_points() {
    let mut b = board(vec![task(5, "Dishes", 1), task(10, "Bathroom", 14)], far_queue());
    b.completed_tasks = vec![UserTasks { user_id: 1, tasks: vec![qt(T - 1, 1)] }];
    b.names = vec![UserName { user_id: 1, name: "Cy".to_string() }];
    assert_eq!(b.display_score(), "\nCy -> 3");
    b.claim_task_on(&ann(), "2", T);
    assert_eq!(b.display_score(), "\nCy -> 3\nAnn -> 10");
    b.claim_task_on(&Some(Sender { id: 1, first_name: "Cyrus".to_string() }), "0", T);
    assert_eq!(b.display_score(), "\nCy -> 8\nAnn -> 10");
    assert!(b.current_tasks.is_empty());
}

#[test]
fn law_claim_keeps_labels_distinct() {
    let mut b = board(vec![task(5, "Dishes", 1), task(3, "Trash", 7)], vec![qt(T, 0), qt(T, 1), qt(T, 2)]);
    b.claim_task_on(&ann(), "0 1", T);
    let mut seen = labels(&b.current_tasks);
    seen.sort();
    seen.dedup();
    assert_eq!(seen.len(), b.current_tasks.len());
}

// ---------------------------------------------------------------- checks

#[test]
fn due_entries_known_looks_only_at_due_entries() {
    let b = board(vec![], vec![qt(T, 0), qt(T + 5, 9)]);
    assert!(b.due_entries_known_on(T));
    assert!(!b.due_entries_known_on(T + 5));
}

#[test]
fn refresh_runs_with_unknown_tasks_not_yet_due() {
    let mut b = board(vec![], vec![qt(T, 0), qt(T + 5, 9), qt(T + 5, 1)]);
    b.refresh_tasks_on(T);
    assert_eq!(labels(&b.current_tasks), vec!["Dishes"]);
    assert_eq!(b.task_queue, vec![qt(T + 1, 0), qt(T + 5, 9), qt(T + 5, 1)]);
}

#[test]
fn completions_known_looks_only_at_the_day() {
    let mut b = board(vec![], far_queue());
    b.completed_tasks = vec![UserTasks { user_id: 1, tasks: vec![qt(T - 1, 7), qt(T, 1)] }];
    assert!(b.completions_known_on(T));
    assert!(!b.completions_known_on(T - 1));
    assert_eq!(
        b.construct_notification_text_on(T),
        "Good morning! Today's tasks:\n\n\nCompleted tasks: 💪🤙\n\t\t\t\t🟢\tTrash (Unknown user)"
    );
}

#[test]
fn scores_computable_checks_references_and_overflow() {
    let mut b = board(vec![], far_queue());
    b.completed_tasks = vec![UserTasks { user_id: 1, tasks: vec![qt(T, 0), qt(T, 2)] }];
    assert!(b.scores_computable());
    b.completed_tasks[0].tasks.push(qt(T, 3));
    assert!(!b.scores_computable());
}

#[test]
fn claimable_count_stops_at_the_first_unknown_number_on_a_non_empty_list() {
    let b = board(vec![task(5, "Dishes", 1)], far_queue());
    // once "Dishes" is claimed the list is empty and 9 is never looked up
    assert_eq!(b.claimable_count(&vec![0, 9, 1]), 3);
    let two = board(vec![task(5, "Dishes", 1), task(3, "Trash", 7)], far_queue());
    assert_eq!(two.claimable_count(&vec![0, 9, 1]), 1);
    assert_eq!(b.claimable_count(&vec![9, 0]), 0);
    assert_eq!(b.claimable_count(&vec![1, 2]), 2);
    let empty = board(vec![], far_queue());
    assert_eq!(empty.claimable_count(&vec![9, 99]), 2);
}

#[test]
fn claim_each_claims_without_refreshing() {
    let mut b = board(vec![task(5, "Dishes", 1)], vec![qt(T, 0), qt(T, 1), qt(T, 2)]);
    let reply = b.claim_each(&ann(), &vec![0, 7], "\n", T);
    assert_eq!(
        reply,
        format!("Unable to claim task (can't find task)!\nClaimed task \"Dishes\"! Awarded 5 points! \n{}", FOOTER)
    );
    assert!(b.current_tasks.is_empty());
    assert_eq!(b.task_queue, vec![qt(T, 0), qt(T, 1), qt(T, 2)]);
}

#[test]
fn claim_on_an_empty_list_accepts_any_number() {
    let mut b = board(vec![], far_queue());
    let reply = b.claim_task_on(&ann(), "42", T);
    assert_eq!(reply, format!("Unable to claim task (can't find task)!{}", FOOTER));
    assert!(b.completed_tasks.is_empty());
}

#[test]
fn pass_on_an_empty_list_accepts_any_number() {
    let mut b = board(vec![], far_queue());
    assert_eq!(b.pass_task(-3), "Unable to claim task (can't find task)!");
    assert_eq!(b.pass_task(100), "Unable to claim task (can't find task)!");
}

#[test]
fn law_second_refresh_same_day_is_idle() {
    let mut b = board(vec![], vec![qt(T, 0), qt(T, 1)]);
    b.refresh_tasks_on(T);
    assert!(b.task_queue.iter().all(|e| e.date > T));
    let queue = b.task_queue.clone();
    let current = labels(&b.current_tasks).iter().map(|l| l.to_string()).collect::<Vec<_>>();
    b.refresh_tasks_on(T);
    assert_eq!(b.task_queue, queue);
    assert_eq!(labels(&b.current_tasks), current);
}

#[test]
fn law_fill_twice_is_fill_once() {
    let mut b = board(vec![], vec![qt(T + 4, 2)]);
    b.fill_que_on(T);
    let once = b.task_queue.clone();
    b.fill_que_on(T);
    assert_eq!(b.task_queue, once);
}

#[test]
fn law_init_queue_one_entry_per_task() {
    let mut b = board(vec![], vec![qt(T + 4, 2)]);
    b.init_queue_on(T);
    let mut indexes: Vec<usize> = b.task_queue.iter().map(|e| e.task_index).collect();
    indexes.sort();
    assert_eq!(indexes, vec![0, 1, 2]);
    let once = b.task_queue.clone();
    b.init_queue_on(T);
    assert_eq!(b.task_queue, once);
}

#[test]
fn law_claim_without_number() {
    let mut b = board(vec![task(5, "Dishes", 1)], vec![qt(T, 0)]);
    let reply = b.claim_task_on(&ann(), "  ", T);
    assert!(reply.starts_with("No valid tasks claimed."));
    assert_eq!(b.task_queue, vec![qt(T, 0)]);
    assert_eq!(labels(&b.current_tasks), vec!["Dishes"]);
}

#[test]
fn law_claim_reads_leading_numbers_only() {
    let mut one = board(vec![task(5, "Dishes", 1), task(3, "Trash", 7)], far_queue());
    let mut two = board(vec![task(5, "Dishes", 1), task(3, "Trash", 7)], far_queue());
    let r1 = one.claim_task_on(&ann(), "+1  00 then 2 trash", T);
    let r2 = two.claim_task_on(&ann(), "1 0", T);
    assert_eq!(r1, r2);
    assert_eq!(one.current_tasks, two.current_tasks);
    assert_eq!(one.completed_tasks, two.completed_tasks);
}

// ---------------------------------------------------------------- today's date from the clock

#[test]
fn clock_versions_use_todays_date() {
    let today = Utc::now().date_naive().num_days_from_ce();
    let mut b = board(vec![task(5, "Dishes", 1)], vec![]);
    b.fill_que();
    assert_eq!(b.task_queue.len(), 3);
    let mut b = board(vec![], vec![]);
    b.init_queue();
    assert_eq!(b.task_queue.len(), 3);
    let mut b = board(vec![], vec![qt(today, 0), qt(today + 6, 1), qt(today + 13, 2)]);
    b.refresh_tasks();
    assert_eq!(labels(&b.current_tasks), vec!["Dishes"]);
    let reply = b.claim_task(&ann(), "0");
    assert!(reply.starts_with("Claimed task \"Dishes\"! Awarded 5 points! "));
    let done = b.get_today_completed_tasks();
    assert_eq!(done.len(), 1);
    assert_eq!(done[0].user_id, 7);
    let text = b.construct_notification_text();
    assert!(text.starts_with("Good morning! Today's tasks:\n"));
    assert!(text.contains("Completed tasks: 💪🤙"));
    assert!(text.ends_with("\t\t\t\t🟢\tDishes (Ann)"));
}

#[test]
fn law_fill_adds_no_duplicates() {
    let mut b = board(vec![], vec![qt(T + 3, 1)]);
    b.all_tasks.push(task(2, "Trash", 3));
    b.fill_que_on(T);
    b.fill_que_on(T + 1);
    let mut indexes: Vec<usize> = b.task_queue.iter().map(|e| e.task_index).collect();
    let count = indexes.len();
    indexes.sort();
    indexes.dedup();
    assert_eq!(indexes.len(), count);
    assert_eq!(indexes, vec![0, 1, 2]);
}

#[test]
fn law_refresh_keeps_queue_entries() {
    let mut b = board(vec![], vec![qt(T - 5, 2), qt(T, 0), qt(T + 9, 1)]);
    b.refresh_tasks_on(T);
    let indexes: Vec<usize> = b.task_queue.iter().map(|e| e.task_index).collect();
    assert_eq!(indexes, vec![2, 0, 1]);
    assert_eq!(b.task_queue, vec![qt(T + 9, 2), qt(T + 1, 0), qt(T + 9, 1)]);
}
