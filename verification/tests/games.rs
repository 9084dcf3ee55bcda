use habit_printer::game::{game_create_msg, update, Game, Meta, Model, Msg};

fn game(name: &str, start: i128, end: i128, events: Vec<i128>) -> Game {
    Game { name: name.to_string(), start, end, events, part_of: None, skipping: None }
}

#[test]
fn occurrence_is_recorded_in_running_games_of_that_name() {
    let mut m = Model {
        games: vec![game("read", 0, 100, vec![]), game("run", 0, 100, vec![]), game("read", 0, 10, vec![1])],
        metas: None,
    };
    update(&mut m, Msg::GameOccurence("read".to_string(), 42), 50);
    assert_eq!(m.games.len(), 3);
    assert_eq!(m.games[0].events, vec![42]);
    assert!(m.games[1].events.is_empty());
    assert_eq!(m.games[2].events, vec![1]);
}

#[test]
fn occurrence_at_the_end_is_not_recorded() {
    let mut m = Model { games: vec![game("read", 0, 100, vec![])], metas: None };
    update(&mut m, Msg::GameOccurence("read".to_string(), 100), 100);
    assert!(m.games[0].events.is_empty());
}

#[test]
fn create_then_occurrence() {
    let mut m = Model { games: vec![], metas: Some(vec![Meta { name: "all".to_string() }]) };
    update(&mut m, Msg::GameCreate("walk".to_string(), 10, 1000), 10);
    assert_eq!(m.games.len(), 1);
    assert_eq!(m.games[0].name, "walk");
    assert_eq!((m.games[0].start, m.games[0].end), (10, 1000));
    assert!(m.games[0].part_of.is_none() && m.games[0].skipping.is_none());
    update(&mut m, Msg::GameOccurence("walk".to_string(), 500), 600);
    assert_eq!(m.games[0].events, vec![500]);
    assert_eq!(m.metas.as_ref().unwrap()[0].name, "all");
}

#[test]
fn replace_swaps_the_model() {
    let mut m = Model { games: vec![game("a", 0, 1, vec![])], metas: None };
    let new = Model { games: vec![game("b", 2, 3, vec![]), game("c", 4, 5, vec![])], metas: None };
    update(&mut m, Msg::Replace(new), 0);
    assert_eq!(m.games.len(), 2);
    assert_eq!(m.games[0].name, "b");
}

#[test]
fn game_creation_runs_for_the_given_weeks() {
    let week: i128 = 604_800 * 1_000_000_000;
    let now: i128 = 1_594_000_000_123_456_789;
    match game_create_msg("swim".to_string(), 3, now) {
        Some(Msg::GameCreate(name, start, end)) => {
            assert_eq!(name, "swim");
            assert_eq!(start, now);
            assert_eq!(end, now + 3 * week);
        },
        _ => panic!("expected a creation"),
    }
    match game_create_msg("past".to_string(), -2, now) {
        Some(Msg::GameCreate(_, _, end)) => assert_eq!(end, now - 2 * week),
        _ => panic!("expected a creation"),
    }
}

#[test]
fn occurrence_of_unknown_game_changes_nothing() {
    let mut m = Model { games: vec![game("read", 0, 100, vec![3])], metas: None };
    update(&mut m, Msg::GameOccurence("swim".to_string(), 42), 50);
    assert_eq!(m.games.len(), 1);
    assert_eq!(m.games[0].name, "read");
    assert_eq!(m.games[0].events, vec![3]);
    assert!(m.metas.is_none());
}

#[test]
fn creation_keeps_existing_games() {
    let mut m = Model { games: vec![game("read", 0, 100, vec![3])], metas: None };
    update(&mut m, Msg::GameCreate("swim".to_string(), 5, 6), 0);
    assert_eq!(m.games.len(), 2);
    assert_eq!((m.games[0].name.as_str(), m.games[0].start, m.games[0].end), ("read", 0, 100));
    assert_eq!(m.games[0].events, vec![3]);
    assert_eq!(m.games[1].name, "swim");
    assert!(m.games[1].events.is_empty());
}

#[test]
fn game_creation_succeeds_for_a_long_game() {
    let week: i128 = 604_800 * 1_000_000_000;
    let now: i128 = 1_594_000_000_000_000_000;
    match game_create_msg("decade".to_string(), 520, now) {
        Some(Msg::GameCreate(_, start, end)) => {
            assert_eq!(start, now);
            assert_eq!(end, now + 520 * week);
        },
        _ => panic!("expected a creation"),
    }
}
