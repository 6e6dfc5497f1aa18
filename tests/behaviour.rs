use roster_report::date::{needs_notification, parse_last_log, CalDate, DateError};
use roster_report::date::local_today;
use roster_report::reports::{filter_by_first_name, notification_list, time_totals, Person, Recipient};
use roster_report::text::{contains_text, text_lt};

fn person(first: &str, middle: &str, last: &str, completed: u64, last_log: &str) -> Person {
    Person {
        award_unit: String::new(),
        first_name: first.to_string(),
        middle_name: middle.to_string(),
        last_name: last.to_string(),
        award_level: String::new(),
        sub_activity: String::new(),
        aim: String::new(),
        completed,
        first_log_date: String::new(),
        assessor_name: String::new(),
        assessor_email: String::new(),
        pid: 0,
        last_log: last_log.to_string(),
        gender: String::new(),
    }
}

#[test]
fn filter_keeps_only_matching_first_names() {
    let recs = vec![
        person("Ann", "Lee", "Smith", 3, ""),
        person("Bob", "X", "Jones", 2, ""),
        person("Joanna", "Y", "Brown", 1, ""),
    ];
    let out = filter_by_first_name(&recs, "Ann");
    assert_eq!(out.len(), 1);
    assert_eq!(out[0].last_name, "Smith");
    let out = filter_by_first_name(&recs, "nn");
    assert_eq!(out.len(), 2);
    assert_eq!(out[1].first_name, "Joanna");
}

#[test]
fn empty_filter_keeps_everything() {
    let recs = vec![person("Ann", "Lee", "Smith", 3, ""), person("Bob", "X", "Jones", 2, "")];
    assert_eq!(filter_by_first_name(&recs, "").len(), 2);
}

#[test]
fn filter_is_case_sensitive() {
    let recs = vec![person("ann", "Lee", "Smith", 3, "")];
    assert_eq!(filter_by_first_name(&recs, "Ann").len(), 0);
}

#[test]
fn substring_search() {
    assert!(contains_text("Joanna", "ann"));
    assert!(contains_text("Ann", ""));
    assert!(!contains_text("An", "Ann"));
    assert!(!contains_text("Anna", "nna "));
}

#[test]
fn string_order() {
    assert!(text_lt("Jones", "Smith"));
    assert!(!text_lt("Smith", "Jones"));
    assert!(text_lt("Ann", "Anna"));
    assert!(!text_lt("Ann", "Ann"));
}

#[test]
fn parse_dates() {
    assert_eq!(parse_last_log(""), Ok(None));
    assert_eq!(
        parse_last_log("2024-02-29"),
        Ok(Some(CalDate { year: 2024, month: 2, day: 29 }))
    );
    assert_eq!(parse_last_log("2023-02-29"), Err(DateError::InvalidDate));
    assert_eq!(parse_last_log("2023-13-01"), Err(DateError::InvalidDate));
    assert_eq!(parse_last_log("2023-ab-01"), Err(DateError::Parse));
    assert_eq!(parse_last_log("2023-01"), Err(DateError::Parse));
    assert_eq!(
        parse_last_log("2023/01/05T10:00"),
        Ok(Some(CalDate { year: 2023, month: 1, day: 5 }))
    );
}

#[test]
fn never_logged_is_notified() {
    let today = CalDate { year: 2024, month: 3, day: 1 };
    assert_eq!(needs_notification("", today), Ok(true));
}

#[test]
fn fourteen_day_boundary() {
    let today = CalDate { year: 2024, month: 3, day: 1 };
    // 2024 is a leap year: 13 days before March 1 is February 17.
    assert_eq!(needs_notification("2024-02-17", today), Ok(false));
    assert_eq!(needs_notification("2024-02-16", today), Ok(true));
    assert_eq!(needs_notification("2024-03-01", today), Ok(false));
}

#[test]
fn malformed_month_is_an_error() {
    let today = CalDate { year: 2024, month: 3, day: 1 };
    assert_eq!(needs_notification("2024-x1-01", today), Err(DateError::Parse));
}

#[test]
fn totals_sum_per_name_and_sort_by_total() {
    let recs = vec![
        person("Ann", "Lee", "Smith", 3, ""),
        person("Bob", "X", "Jones", 1, ""),
        person("Ann", "Q", "Smith", 4, ""),
        person("Cat", "Y", "Adams", 2, ""),
    ];
    let out = time_totals(&recs);
    assert_eq!(out.len(), 3);
    let got: Vec<(String, String, u128)> =
        out.iter().map(|e| (e.last_name.clone(), e.first_name.clone(), e.total)).collect();
    assert_eq!(
        got,
        vec![
            ("Jones".to_string(), "Bob".to_string(), 1),
            ("Adams".to_string(), "Cat".to_string(), 2),
            ("Smith".to_string(), "Ann".to_string(), 7),
        ]
    );
}

#[test]
fn equal_totals_fall_back_to_last_name() {
    let recs = vec![
        person("Ann", "A", "Zed", 5, ""),
        person("Bob", "B", "Brown", 5, ""),
        person("Cid", "C", "Moss", 5, ""),
    ];
    let out = time_totals(&recs);
    let names: Vec<&str> = out.iter().map(|e| e.last_name.as_str()).collect();
    assert_eq!(names, vec!["Brown", "Moss", "Zed"]);
}

#[test]
fn no_records_give_no_totals() {
    assert!(time_totals(&Vec::new()).is_empty());
}

#[test]
fn recipients_are_unique_and_sorted() {
    let today = CalDate { year: 2024, month: 3, day: 1 };
    let recs = vec![
        person("Zoe", "M", "Brown", 0, ""),
        person("Amy", "K", "Smith", 0, "2024-01-01"),
        person("Amy", "K", "Smith", 0, ""),
        person("Amy", "B", "Smith", 0, ""),
        person("Amy", "K", "Jones", 0, "2024-02-28"),
    ];
    let out = notification_list(&recs, today).unwrap();
    let lines: Vec<String> = out.iter().map(|r| r.line()).collect();
    assert_eq!(lines, vec!["Amy B Smith", "Amy K Smith", "Zoe M Brown"]);
}

#[test]
fn first_bad_date_is_reported() {
    let today = CalDate { year: 2024, month: 3, day: 1 };
    let recs = vec![
        person("Ann", "L", "Smith", 0, "2024-02-30"),
        person("Bob", "L", "Jones", 0, "2024-xx-01"),
    ];
    assert!(matches!(notification_list(&recs, today), Err(DateError::InvalidDate)));
    let recs = vec![
        person("Bob", "L", "Jones", 0, "2024-xx-01"),
        person("Ann", "L", "Smith", 0, "2024-02-30"),
    ];
    assert!(matches!(notification_list(&recs, today), Err(DateError::Parse)));
}

#[test]
fn recipient_line_format() {
    let r = Recipient::of(&person("Ann", "Lee", "Smith", 0, ""));
    assert_eq!(r.line(), "Ann Lee Smith");
}

#[test]
fn two_person_scenario() {
    let today = local_today();
    let today_text = format!("{:04}-{:02}-{:02}", today.year, today.month, today.day);
    let recs = vec![
        person("Ann", "Lee", "Smith", 3_000_000_000, ""),
        person("Ann", "Lee", "Jones", 2_000_000_000, &today_text),
    ];
    let kept = filter_by_first_name(&recs, "Ann");
    let totals: Vec<u128> = time_totals(&kept).iter().map(|e| e.total).collect();
    assert_eq!(totals, vec![2_000_000_000, 3_000_000_000]);
    let lines: Vec<String> =
        notification_list(&kept, today).unwrap().iter().map(|r| r.line()).collect();
    assert_eq!(lines, vec!["Ann Lee Smith"]);
}

#[test]
fn totals_add_up_to_all_completed() {
    let recs = vec![
        person("Ann", "Lee", "Smith", 3, ""),
        person("Ann", "Lee", "Smith", 5, ""),
        person("Bob", "X", "Smith", 11, ""),
        person("Ann", "Y", "Jones", 7, ""),
    ];
    let out = time_totals(&recs);
    assert_eq!(out.len(), 3);
    assert_eq!(out.iter().map(|e| e.total).sum::<u128>(), 26);
}
