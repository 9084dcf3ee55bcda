use habit_printer::agenda::{
    agenda_from_entries, collect_entries, event_entry, try_view_from_items, view_from_items,
    AgendaEntry, CalendarItem, EventStart,
};
use habit_printer::calendar::Weekday;

fn timed(date_time: &str, summary: &str) -> CalendarItem {
    CalendarItem {
        start: Some(EventStart { date: None, date_time: Some(date_time.to_string()) }),
        summary: Some(summary.to_string()),
    }
}

fn whole_day(date: &str, summary: &str) -> CalendarItem {
    CalendarItem {
        start: Some(EventStart { date: Some(date.to_string()), date_time: None }),
        summary: Some(summary.to_string()),
    }
}

#[test]
fn agenda_sorts_and_groups_by_day() {
    let items = vec![
        timed("2020-07-06T09:30:00-07:00", "Standup"),
        whole_day("2020-07-06", "Holiday"),
        CalendarItem { start: Some(EventStart { date: None, date_time: None }), summary: None },
        timed("2020-07-13T18:05:00-07:00", "Dinner"),
    ];
    let view = view_from_items(items);
    assert_eq!(view, "Monday 6:\n  00:00 Holiday\n  09:30 Standup\nMonday13:\n  18:05 Dinner\n");
}

#[test]
fn agenda_of_nothing_is_empty() {
    assert_eq!(view_from_items(vec![]), "");
    let untitled = CalendarItem {
        start: Some(EventStart { date: Some("2020-07-06".to_string()), date_time: None }),
        summary: None,
    };
    assert_eq!(view_from_items(vec![untitled]), "");
}

#[test]
fn agenda_keeps_order_of_simultaneous_events() {
    let items = vec![
        timed("2020-07-07T08:00:00-07:00", "B"),
        timed("2020-07-07T08:00:00-07:00", "A"),
        timed("2020-07-07T07:00:00-07:00", "C"),
    ];
    assert_eq!(view_from_items(items), "Tuesday 7:\n  07:00 C\n  08:00 B\n  08:00 A\n");
}

#[test]
fn agenda_uses_each_events_own_offset() {
    // 23:30 in UTC-7 is already the next day in UTC.
    let items = vec![timed("2020-07-07T23:30:00-07:00", "Late"), timed("2020-07-08T07:00:00+00:00", "Early")];
    assert_eq!(view_from_items(items), "Tuesday 7:\n  23:30 Late\nWednesday 8:\n  07:00 Early\n");
}

#[test]
fn unparsable_start_gives_no_agenda() {
    assert!(try_view_from_items(vec![whole_day("2020-13-40", "Bad")]).is_none());
    assert!(try_view_from_items(vec![timed("yesterday", "Bad")]).is_none());
    let no_time = CalendarItem {
        start: Some(EventStart { date: None, date_time: None }),
        summary: Some("Nothing".to_string()),
    };
    assert!(try_view_from_items(vec![no_time]).is_none());
    assert_eq!(
        try_view_from_items(vec![whole_day("2020-07-11", "Trip")]),
        Some("Saturday11:\n  00:00 Trip\n".to_string())
    );
}

#[test]
fn whole_day_event_starts_at_seven_utc() {
    let start = EventStart { date: Some("1970-01-02".to_string()), date_time: None };
    let e = event_entry(&start, &"x".to_string()).unwrap();
    assert_eq!(e.secs, 86400 + 25200);
    assert_eq!(e.nanos, 0);
    assert_eq!(e.day_key, 719_164);
    assert_eq!(e.weekday, Weekday::Fri);
    assert_eq!((e.day, e.hour, e.minute), (2, 0, 0));
}

#[test]
fn timed_event_entry_fields() {
    let start = EventStart { date: None, date_time: Some("2020-07-08T03:04:05.5+02:00".to_string()) };
    let e = event_entry(&start, &"x".to_string()).unwrap();
    assert_eq!(e.secs, 1_594_170_245);
    assert_eq!(e.nanos, 500_000_000);
    assert_eq!(e.weekday, Weekday::Wed);
    assert_eq!((e.day, e.hour, e.minute), (8, 3, 4));
    assert_eq!(e.summary, "x");
}

#[test]
fn date_takes_precedence_over_date_time() {
    let start = EventStart {
        date: Some("2020-07-06".to_string()),
        date_time: Some("2020-07-09T10:00:00-07:00".to_string()),
    };
    let e = event_entry(&start, &"x".to_string()).unwrap();
    assert_eq!(e.day, 6);
    assert_eq!(e.hour, 0);
}

#[test]
fn collect_entries_skips_untitled_items() {
    let items = vec![
        CalendarItem { start: None, summary: Some("no start".to_string()) },
        whole_day("2020-07-06", "Holiday"),
    ];
    let es = collect_entries(&items).unwrap();
    assert_eq!(es.len(), 1);
    assert_eq!(es[0].summary, "Holiday");
}

#[test]
fn agenda_pads_single_digit_days_and_times() {
    let e = AgendaEntry {
        secs: 0,
        nanos: 0,
        day_key: 1,
        weekday: Weekday::Sun,
        day: 9,
        hour: 7,
        minute: 5,
        summary: "x".to_string(),
    };
    assert_eq!(agenda_from_entries(vec![e]), "Sunday 9:\n  07:05 x\n");
}
