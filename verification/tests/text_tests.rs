use chore_board::parse::parse_task_indexes;
use chore_board::text::{decimal_string, push_nat_decimal};

#[test]
fn decimal_string_renders_integers() {
    assert_eq!(decimal_string(0), "0");
    assert_eq!(decimal_string(7), "7");
    assert_eq!(decimal_string(1234), "1234");
    assert_eq!(decimal_string(-5), "-5");
    assert_eq!(decimal_string(-120), "-120");
    assert_eq!(decimal_string(i64::MAX), "9223372036854775807");
    assert_eq!(decimal_string(i64::MIN), "-9223372036854775808");
}

#[test]
fn decimal_string_matches_std_formatting() {
    for n in [-1000i64, -99, -10, -9, -1, 0, 1, 9, 10, 99, 100, 65535, 1 << 40] {
        assert_eq!(decimal_string(n), format!("{}", n));
    }
}

#[test]
fn parse_reads_whitespace_separated_numbers() {
    assert_eq!(parse_task_indexes("1 2 3"), vec![1, 2, 3]);
    assert_eq!(parse_task_indexes("  1\t2 \n 3  "), vec![1, 2, 3]);
    assert_eq!(parse_task_indexes("4\u{3000}5\u{a0}6"), vec![4, 5, 6]);
    assert_eq!(parse_task_indexes("07"), vec![7]);
}

#[test]
fn parse_stops_at_first_word_that_is_not_a_number() {
    assert_eq!(parse_task_indexes("1 2x 3"), vec![1]);
    assert_eq!(parse_task_indexes("x 1 2"), Vec::<usize>::new());
    assert_eq!(parse_task_indexes("3 -1 4"), vec![3]);
}

#[test]
fn parse_accepts_a_leading_plus_only() {
    assert_eq!(parse_task_indexes("+5 +0"), vec![5, 0]);
    assert_eq!(parse_task_indexes("+"), Vec::<usize>::new());
    assert_eq!(parse_task_indexes("++5"), Vec::<usize>::new());
    assert_eq!(parse_task_indexes("-5"), Vec::<usize>::new());
}

#[test]
fn parse_of_empty_or_blank_text_is_empty() {
    assert_eq!(parse_task_indexes(""), Vec::<usize>::new());
    assert_eq!(parse_task_indexes("   \t\n"), Vec::<usize>::new());
}

#[test]
fn parse_rejects_numbers_beyond_usize() {
    let max = usize::MAX.to_string();
    assert_eq!(parse_task_indexes(&max), vec![usize::MAX]);
    let over = format!("{}0", max);
    assert_eq!(parse_task_indexes(&over), Vec::<usize>::new());
}

#[test]
fn parse_agrees_with_std_on_samples() {
    for text in ["1 2 3", "12 ab 3", "+7 8", "- 1", "9\u{2003}10", "٣ 4", "5\u{200b}6"] {
        let expected: Vec<usize> = text
            .split_whitespace()
            .map(|w| w.parse::<usize>())
            .take_while(|r| r.is_ok())
            .map(|r| r.unwrap())
            .collect();
        assert_eq!(parse_task_indexes(text), expected, "on {:?}", text);
    }
}

#[test]
fn law_task_number_reads_back_on_samples() {
    for n in [0usize, 1, 9, 10, 42, 1000, 65536, usize::MAX] {
        let mut shown = String::new();
        push_nat_decimal(&mut shown, n as u64);
        assert_eq!(shown, n.to_string());
        assert_eq!(parse_task_indexes(&shown), vec![n]);
    }
}
