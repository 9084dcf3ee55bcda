use habit_printer::agenda::{agenda_window, view_from_items, CalendarItem, EventStart};
use habit_printer::calendar::Weekday;
use habit_printer::game::{game_create_msg, update, Game, Meta, Model, Msg};
use habit_printer::graph::github_graph;
use habit_printer::meta::current_meta_game;
use habit_printer::streak::longest_streak;

fn instant(rfc3339: &str) -> i128 {
    let t = chrono::DateTime::parse_from_rfc3339(rfc3339).unwrap();
    t.timestamp() as i128 * 1_000_000_000 + t.timestamp_subsec_nanos() as i128
}

fn game(name: &str, part_of: Option<&str>, events: &[&str]) -> Game {
    Game {
        name: name.to_string(),
        start: instant("2020-07-06T12:00:00-07:00"),
        end: instant("2020-07-20T12:00:00-07:00"),
        events: events.iter().map(|e| instant(e)).collect(),
        part_of: part_of.map(|p| p.to_string()),
        skipping: None,
    }
}

fn timed(date_time: &str, summary: &str) -> CalendarItem {
    CalendarItem {
        start: Some(EventStart { date: None, date_time: Some(date_time.to_string()) }),
        summary: Some(summary.to_string()),
    }
}

#[test]
fn streak_depends_on_days_only() {
    assert_eq!(longest_streak(&vec![3, 1, 2]), longest_streak(&vec![2, 1, 3, 3, 2, 1]));
    assert_eq!(longest_streak(&vec![9, 7]), longest_streak(&vec![7, 9, 9]));
}

#[test]
fn grid_depends_on_event_days_only() {
    let now = instant("2020-07-10T12:00:00-07:00");
    let g1 = game("read", None, &["2020-07-07T10:00:00-07:00", "2020-07-08T10:00:00-07:00"]);
    let g2 = game(
        "read",
        None,
        &["2020-07-08T21:00:00-07:00", "2020-07-07T10:00:00-07:00", "2020-07-07T06:00:00-07:00"],
    );
    assert_eq!(github_graph(&g1, now), github_graph(&g2, now));
}

#[test]
fn skipping_more_keeps_meta_events() {
    let a = game("a", Some("m"), &["2020-07-07T10:00:00-07:00", "2020-07-08T10:00:00-07:00"]);
    let b = game("b", Some("m"), &["2020-07-07T11:00:00-07:00"]);
    let metas = Some(vec![Meta { name: "m".to_string() }]);
    let before = current_meta_game(&Model { games: vec![a.clone(), b.clone()], metas: metas.clone() }).unwrap();
    let mut b2 = b.clone();
    b2.skipping = Some(vec![Weekday::Wed]);
    let after = current_meta_game(&Model { games: vec![a, b2], metas }).unwrap();
    assert_eq!(before.events, vec![instant("2020-07-07T10:00:00-07:00"), instant("2020-07-07T11:00:00-07:00")]);
    assert_eq!(
        after.events,
        vec![
            instant("2020-07-07T10:00:00-07:00"),
            instant("2020-07-08T10:00:00-07:00"),
            instant("2020-07-07T11:00:00-07:00"),
        ]
    );
    assert_eq!((before.start, before.end), (after.start, after.end));
}

#[test]
fn other_games_leave_meta_unchanged() {
    let a = game("a", Some("m"), &["2020-07-07T10:00:00-07:00"]);
    let metas = Some(vec![Meta { name: "m".to_string() }]);
    let mut other = game("o", Some("x"), &["2020-07-09T10:00:00-07:00"]);
    other.start = instant("2019-01-01T00:00:00Z");
    let lone = game("l", None, &[]);
    let m1 = current_meta_game(&Model { games: vec![a.clone()], metas: metas.clone() }).unwrap();
    let m2 = current_meta_game(&Model { games: vec![other, a, lone], metas }).unwrap();
    assert_eq!((m1.name, m1.start, m1.end, m1.events), (m2.name, m2.start, m2.end, m2.events));
}

#[test]
fn messages_keep_games_and_append_events() {
    let mut m = Model { games: vec![game("read", None, &["2020-07-07T10:00:00-07:00"])], metas: None };
    let now = instant("2020-07-10T12:00:00-07:00");
    update(&mut m, Msg::GameOccurence("read".to_string(), now), now);
    update(&mut m, Msg::GameCreate("run".to_string(), now, now + 1), now);
    update(&mut m, Msg::GameOccurence("read".to_string(), now + 5), now + 5);
    assert_eq!(m.games.len(), 2);
    assert_eq!(m.games[0].name, "read");
    assert_eq!(m.games[0].events, vec![instant("2020-07-07T10:00:00-07:00"), now, now + 5]);
}

#[test]
fn untitled_items_change_nothing() {
    let untitled = CalendarItem { start: Some(EventStart { date: Some("bad".to_string()), date_time: None }), summary: None };
    let items = vec![timed("2020-07-06T09:30:00-07:00", "A"), timed("2020-07-07T09:30:00-07:00", "B")];
    let with = vec![timed("2020-07-06T09:30:00-07:00", "A"), untitled, timed("2020-07-07T09:30:00-07:00", "B")];
    assert_eq!(view_from_items(items), view_from_items(with));
}

#[test]
fn reordered_items_give_same_agenda() {
    let items = vec![
        timed("2020-07-06T09:30:00-07:00", "A"),
        timed("2020-07-07T09:30:00-07:00", "B"),
        timed("2020-07-06T08:00:00-07:00", "C"),
    ];
    let reordered = vec![
        timed("2020-07-07T09:30:00-07:00", "B"),
        timed("2020-07-06T08:00:00-07:00", "C"),
        timed("2020-07-06T09:30:00-07:00", "A"),
    ];
    assert_eq!(view_from_items(items), view_from_items(reordered));
}

#[test]
fn agenda_window_spans_one_week() {
    let now = instant("2020-07-06T09:30:00Z");
    let (from, to) = agenda_window(now).unwrap();
    let from = chrono::DateTime::parse_from_rfc3339(&from).unwrap();
    let to = chrono::DateTime::parse_from_rfc3339(&to).unwrap();
    assert_eq!(from.timestamp() as i128 * 1_000_000_000, now);
    assert_eq!(to.timestamp() - from.timestamp(), 604_800);
}

#[test]
fn no_window_or_game_beyond_chrono_range() {
    let last = 8_210_266_876_799_999_999_999i128;
    assert!(agenda_window(last).is_none());
    assert!(game_create_msg("far".to_string(), 1, last).is_none());
    assert!(game_create_msg("back".to_string(), -1, last).is_some());
}
