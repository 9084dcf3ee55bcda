use habit_printer::calendar::{california_day, weekday_from_index, weekday_name, weekday_of_day, Weekday};
use habit_printer::printing::{receipt_text, user_code_prompt};
use habit_printer::ynab::{transactions_settled, Transaction};

fn instant(rfc3339: &str) -> i128 {
    let t = chrono::DateTime::parse_from_rfc3339(rfc3339).unwrap();
    t.timestamp() as i128 * 1_000_000_000 + t.timestamp_subsec_nanos() as i128
}

#[test]
fn weekday_names() {
    let all = [
        (Weekday::Mon, "Monday"),
        (Weekday::Tue, "Tuesday"),
        (Weekday::Wed, "Wednesday"),
        (Weekday::Thu, "Thursday"),
        (Weekday::Fri, "Friday"),
        (Weekday::Sat, "Saturday"),
        (Weekday::Sun, "Sunday"),
    ];
    for (i, (w, name)) in all.iter().enumerate() {
        assert_eq!(weekday_name(*w), *name);
        assert_eq!(weekday_from_index(i as u32), *w);
    }
}

#[test]
fn california_days_follow_utc_minus_seven() {
    assert_eq!(california_day(0), -1);
    assert_eq!(california_day(25_200 * 1_000_000_000), 0);
    assert_eq!(california_day(25_200 * 1_000_000_000 - 1), -1);
    let late = instant("2020-07-08T03:00:00Z");
    let early = instant("2020-07-08T08:00:00Z");
    assert_eq!(california_day(early) - california_day(late), 1);
    assert_eq!(california_day(instant("1969-12-31T07:00:00Z")), -1);
}

#[test]
fn weekdays_of_days() {
    assert_eq!(weekday_of_day(0), Weekday::Thu);
    assert_eq!(weekday_of_day(-1), Weekday::Wed);
    assert_eq!(weekday_of_day(3), Weekday::Sun);
    assert_eq!(weekday_of_day(4), Weekday::Mon);
    for d in -20..20 {
        assert_eq!(weekday_of_day(d + 7), weekday_of_day(d));
    }
}

#[test]
fn receipt_has_room_to_tear() {
    assert_eq!(receipt_text("hello"), "\nhello\n\n\n");
    assert_eq!(receipt_text(""), "\n\n\n\n");
}

#[test]
fn user_code_prompt_text() {
    assert_eq!(
        user_code_prompt("ABC-123", "https://example.com/device"),
        "Please enter ABC-123 at https://example.com/device and grant access to this application"
    );
}

#[test]
fn transactions_settled_when_flagged_or_approved() {
    assert!(transactions_settled(&vec![]));
    let ok = vec![
        Transaction { approved: true, flag_color: None },
        Transaction { approved: false, flag_color: Some("red".to_string()) },
    ];
    assert!(transactions_settled(&ok));
    let pending = vec![Transaction { approved: true, flag_color: None }, Transaction { approved: false, flag_color: None }];
    assert!(!transactions_settled(&pending));
}

#[test]
fn next_day_is_next_weekday() {
    let order = [Weekday::Mon, Weekday::Tue, Weekday::Wed, Weekday::Thu, Weekday::Fri, Weekday::Sat, Weekday::Sun];
    for d in -10i128..10 {
        let i = order.iter().position(|w| *w == weekday_of_day(d)).unwrap();
        assert_eq!(weekday_of_day(d + 1), order[(i + 1) % 7]);
    }
}
