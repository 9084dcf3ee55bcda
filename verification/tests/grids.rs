use habit_printer::calendar::Weekday;
use habit_printer::game::{Game, Meta, Model};
use habit_printer::graph::github_graph;
use habit_printer::meta::current_meta_game;
use habit_printer::streak::{_consecutive_days, longest_streak};

fn instant(rfc3339: &str) -> i128 {
    let t = chrono::DateTime::parse_from_rfc3339(rfc3339).unwrap();
    t.timestamp() as i128 * 1_000_000_000 + t.timestamp_subsec_nanos() as i128
}

fn game(name: &str, start: &str, end: &str, events: &[&str]) -> Game {
    Game {
        name: name.to_string(),
        start: instant(start),
        end: instant(end),
        events: events.iter().map(|e| instant(e)).collect(),
        part_of: None,
        skipping: None,
    }
}

#[test]
fn graph_of_running_game() {
    let g = game(
        "read",
        "2020-07-06T12:00:00-07:00",
        "2020-07-20T12:00:00-07:00",
        &["2020-07-08T10:00:00-07:00", "2020-07-07T10:00:00-07:00"],
    );
    let now = instant("2020-07-10T12:00:00-07:00");
    assert_eq!(github_graph(&g, now), "\nGame /read\n\n_oXX_O_\n_______\n_o\n");
}

#[test]
fn graph_without_events_starts_on_sunday_before_first_day() {
    let g = game("walk", "2020-07-08T12:00:00-07:00", "2020-07-10T12:00:00-07:00", &[]);
    let now = instant("2020-07-09T12:00:00-07:00");
    assert_eq!(github_graph(&g, now), "\nGame /walk\n\n___oOo\n");
}

#[test]
fn graph_counts_days_in_california() {
    // 20:00 in California is already the next day in UTC.
    let g = game("late", "2020-07-06T12:00:00-07:00", "2020-07-08T12:00:00-07:00", &["2020-07-07T20:00:00-07:00"]);
    let now = instant("2020-07-08T11:00:00-07:00");
    assert_eq!(github_graph(&g, now), "\nGame /late\n\n_oXO\n");
}

#[test]
fn no_graph_outside_the_game() {
    let g = game("read", "2020-07-06T12:00:00-07:00", "2020-07-20T12:00:00-07:00", &[]);
    assert_eq!(github_graph(&g, instant("2020-07-21T12:00:00-07:00")), "");
    assert_eq!(github_graph(&g, instant("2020-07-06T12:00:00-07:00")), "");
    assert_eq!(github_graph(&g, instant("2020-07-20T12:00:00-07:00")), "");
}

#[test]
fn meta_game_keeps_days_on_which_every_game_was_done_or_off() {
    let mut a = game(
        "a",
        "2020-07-06T12:00:00-07:00",
        "2020-07-20T12:00:00-07:00",
        &["2020-07-07T10:00:00-07:00", "2020-07-08T10:00:00-07:00", "2020-07-09T10:00:00-07:00"],
    );
    a.part_of = Some("m".to_string());
    let mut b = game("b", "2020-07-05T12:00:00-07:00", "2020-07-19T12:00:00-07:00", &["2020-07-07T20:00:00-07:00"]);
    b.part_of = Some("m".to_string());
    b.skipping = Some(vec![Weekday::Wed]);
    let mut c = game("c", "2020-01-01T00:00:00-07:00", "2021-01-01T00:00:00-07:00", &["2020-07-09T10:00:00-07:00"]);
    c.part_of = Some("other".to_string());
    let model = Model { games: vec![a, b, c], metas: Some(vec![Meta { name: "m".to_string() }]) };
    let meta = current_meta_game(&model).unwrap();
    assert_eq!(meta.name, "m");
    assert_eq!(meta.start, instant("2020-07-05T12:00:00-07:00"));
    assert_eq!(meta.end, instant("2020-07-20T12:00:00-07:00"));
    assert_eq!(
        meta.events,
        vec![
            instant("2020-07-07T10:00:00-07:00"),
            instant("2020-07-08T10:00:00-07:00"),
            instant("2020-07-07T20:00:00-07:00"),
        ]
    );
    assert!(meta.part_of.is_none() && meta.skipping.is_none());
}

#[test]
fn no_meta_game_without_member_games() {
    let g = game("a", "2020-07-06T12:00:00-07:00", "2020-07-20T12:00:00-07:00", &[]);
    let model = Model { games: vec![g], metas: Some(vec![Meta { name: "m".to_string() }]) };
    assert!(current_meta_game(&model).is_none());
    let model = Model { games: vec![], metas: None };
    assert!(current_meta_game(&model).is_none());
}

#[test]
fn without_metas_the_meta_game_is_the_unnamed_one() {
    let mut g = game("a", "2020-07-06T12:00:00-07:00", "2020-07-20T12:00:00-07:00", &["2020-07-07T10:00:00-07:00"]);
    g.part_of = Some(String::new());
    let model = Model { games: vec![g], metas: None };
    let meta = current_meta_game(&model).unwrap();
    assert_eq!(meta.name, "");
    assert_eq!(meta.events.len(), 1);
}

#[test]
fn longest_streaks() {
    assert_eq!(longest_streak(&vec![]), 0);
    assert_eq!(longest_streak(&vec![10, 11, 12, 20, 21]), 3);
    assert_eq!(longest_streak(&vec![21, 5, 20, 5, 6]), 2);
    assert_eq!(longest_streak(&vec![7]), 1);
    assert_eq!(longest_streak(&vec![3, 1, 2, 5, 4]), 5);
}

#[test]
fn consecutive_days_of_a_game() {
    let g = game(
        "g",
        "2020-01-01T00:00:00Z",
        "2020-02-01T00:00:00Z",
        &["2020-01-10T12:00:00Z", "2020-01-11T12:00:00Z", "2020-01-12T12:00:00Z", "2020-01-20T12:00:00Z"],
    );
    assert_eq!(_consecutive_days(&g), 3);
    let empty = game("e", "2020-01-01T00:00:00Z", "2020-02-01T00:00:00Z", &[]);
    assert_eq!(_consecutive_days(&empty), 0);
}
