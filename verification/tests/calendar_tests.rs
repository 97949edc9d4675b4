use chore_board::calendar::{day_of_instant, nd_now, EPOCH_DAY, MAX_DAY, MIN_DAY};
use chore_board::model::{Board, QueTask, Task};
use chrono::{Datelike, Duration, NaiveDate, Utc};

fn day(y: i32, m: u32, d: u32) -> i32 {
    NaiveDate::from_ymd_opt(y, m, d).unwrap().num_days_from_ce()
}

fn one_task_board(day_interval: i8, date: i32) -> Board {
    Board {
        all_tasks: vec![Task { points: 1, label: "Plants".to_string(), day_interval }],
        current_tasks: vec![],
        task_queue: vec![QueTask { date, task_index: 0 }],
        completed_tasks: vec![],
        names: vec![],
    }
}

#[test]
fn day_range_matches_chrono() {
    assert_eq!(NaiveDate::MIN.num_days_from_ce(), MIN_DAY);
    assert_eq!(NaiveDate::MAX.num_days_from_ce(), MAX_DAY);
    assert_eq!(day(1, 1, 1), 1);
}

#[test]
fn rescheduling_moves_dates_by_calendar_days() {
    let mut b = one_task_board(31, day(2024, 1, 1));
    b.refresh_tasks_on(day(2024, 1, 1));
    assert_eq!(b.task_queue[0].date, day(2024, 2, 1));
    let mut b = one_task_board(-1, day(2024, 3, 1));
    b.refresh_tasks_on(day(2024, 3, 1));
    assert_eq!(b.task_queue[0].date, day(2024, 2, 29));
}

#[test]
fn rescheduling_stops_at_the_end_of_the_calendar() {
    let mut b = one_task_board(1, MAX_DAY);
    b.refresh_tasks_on(MAX_DAY);
    assert_eq!(b.task_queue[0].date, MAX_DAY);
    assert_eq!(b.current_tasks.len(), 1);
    let mut b = one_task_board(-1, MIN_DAY);
    b.refresh_tasks_on(MIN_DAY);
    assert_eq!(b.task_queue[0].date, MIN_DAY);
}

#[test]
fn a_date_outside_the_calendar_is_never_moved() {
    let mut b = one_task_board(-1, MAX_DAY + 1);
    b.refresh_tasks_on(i32::MAX);
    assert_eq!(b.task_queue[0].date, MAX_DAY + 1);
    assert_eq!(b.current_tasks.len(), 1);
}

#[test]
fn filling_starts_from_yesterday() {
    let mut b = one_task_board(3, 0);
    b.task_queue.clear();
    b.fill_que_on(day(2024, 3, 1));
    assert_eq!(b.task_queue, vec![QueTask { date: day(2024, 3, 3), task_index: 0 }]);
}

#[test]
fn the_clock_gives_todays_utc_date() {
    let today = Utc::now().date_naive();
    let mut b = one_task_board(2, today.num_days_from_ce());
    b.refresh_tasks();
    let after = Utc::now().date_naive();
    let moved = b.task_queue[0].date;
    assert!(
        moved == (today + Duration::days(2)).num_days_from_ce()
            || moved == (after + Duration::days(2)).num_days_from_ce()
    );
    assert_eq!(b.current_tasks.len(), 1);
}

#[test]
fn instants_fall_on_utc_days() {
    assert_eq!(EPOCH_DAY, day(1970, 1, 1));
    assert_eq!(day_of_instant(true, 0), day(1970, 1, 1));
    assert_eq!(day_of_instant(true, 86399), day(1970, 1, 1));
    assert_eq!(day_of_instant(true, 86400), day(1970, 1, 2));
    assert_eq!(day_of_instant(false, 1), day(1969, 12, 31));
    assert_eq!(day_of_instant(false, 86400), day(1969, 12, 31));
    assert_eq!(day_of_instant(false, 86401), day(1969, 12, 30));
    assert_eq!(day_of_instant(true, 1725029869), day(2024, 8, 30));
}

#[test]
fn instants_beyond_the_calendar_give_its_ends() {
    assert_eq!(day_of_instant(true, u64::MAX), MAX_DAY);
    assert_eq!(day_of_instant(false, u64::MAX), MIN_DAY);
}

#[test]
fn nd_now_is_todays_utc_date() {
    let before = Utc::now().date_naive().num_days_from_ce();
    let today = nd_now();
    let after = Utc::now().date_naive().num_days_from_ce();
    assert!(before <= today && today <= after);
}
