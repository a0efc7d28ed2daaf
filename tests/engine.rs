use ants_engine::entities::{cell_char, from_char};
use ants_engine::grid::isqrt;
use ants_engine::replay::Replay;
use ants_engine::{
    create_replay_logger, Action, Direction, Entity, FinishedReason, Food, Game, Grid, Hill,
    MapError, Simulation,
};

const TWO_PLAYERS: &str = "\
    rows 4
    cols 4
    players 2
    m %1.%
    m %..%
    m %..%
    m %.0%";

#[test]
fn parse_rejects_a_map_without_header() {
    let map = "\
        rows 2
        players 1
        m ..
        m ..";
    assert_eq!(Grid::parse(map).err(), Some(MapError::MissingHeader));
}

#[test]
fn parse_rejects_an_unknown_character() {
    let map = "\
        rows 1
        cols 2
        players 1
        m .?";
    assert_eq!(Grid::parse(map).err(), Some(MapError::InvalidCharacter));
}

#[test]
fn parse_rejects_a_player_beyond_the_count() {
    let map = "\
        rows 1
        cols 2
        players 1
        m .b";
    assert_eq!(Grid::parse(map).err(), Some(MapError::InvalidPlayer));
}

#[test]
fn parse_rejects_rows_beyond_the_size() {
    let map = "\
        rows 1
        cols 2
        players 1
        m ...";
    assert_eq!(Grid::parse(map).err(), Some(MapError::OutOfBounds));
    let map = "\
        rows 1
        cols 2
        players 1
        m ..
        m ..";
    assert_eq!(Grid::parse(map).err(), Some(MapError::OutOfBounds));
}

#[test]
fn parse_rejects_a_grid_too_large_to_index() {
    let map = "\
        rows 18446744073709551615
        cols 2
        players 1";
    assert_eq!(Grid::parse(map).err(), Some(MapError::TooLarge));
}

#[test]
fn game_new_reports_a_bad_map() {
    assert_eq!(
        Game::new("rows 1\ncols 1\nplayers 1\nm ?", 4, 5, 1, 5, 10, 0, None).err(),
        Some(MapError::InvalidCharacter)
    );
}

#[test]
fn simulation_reads_its_map() {
    let sim = Simulation::new(TWO_PLAYERS).unwrap();
    assert_eq!(sim.grid.width(), 4);
    assert_eq!(sim.grid.height(), 4);
    assert_eq!(sim.grid.players(), 2);
    assert!(Simulation::new("cols 3").is_err());
}

#[test]
fn ants_get_distinct_identifiers_from_their_cells() {
    let map = "\
        rows 2
        cols 3
        players 2
        m a.b
        m .A.";
    let grid = Grid::parse(map).unwrap();
    assert_eq!(grid.get(0, 0).unwrap().id(), Some(0));
    assert_eq!(grid.get(0, 2).unwrap().id(), Some(2));
    assert_eq!(grid.get(1, 1).unwrap().id(), Some(4));
    assert_eq!(grid.get(1, 1).unwrap().on_ant_hill(), Some(Hill::new(0, true)));
}

#[test]
fn observed_ant_ids_are_uuid_text() {
    let mut game = Game::new(TWO_PLAYERS, 4, 4, 1, 5, 1500, 0, None).unwrap();
    let state = game.start();
    // The map has 16 cells, so the first ants made are numbered 16 and 17.
    assert_eq!(state.ants[1][0].id, "00000000-0000-0000-0000-000000000010");
    assert_eq!(state.ants[0][0].id, "00000000-0000-0000-0000-000000000011");
}

#[test]
fn start_twice_gives_the_same_observation() {
    let mut game = Game::new(TWO_PLAYERS, 4, 4, 1, 5, 1500, 7, None).unwrap();
    let first = format!("{:?}", game.start());
    game.update(vec![Action::new(3, 2, Direction::North)]);
    let second = format!("{:?}", game.start());
    assert_eq!(first, second);
}

#[test]
fn same_seed_and_actions_give_the_same_game() {
    let map = "\
        rows 6
        cols 6
        players 2
        m 0.....
        m ......
        m ......
        m ......
        m ......
        m .....1";
    let mut a = Game::new(map, 9, 5, 1, 3, 20, 42, None).unwrap();
    let mut b = Game::new(map, 9, 5, 1, 3, 20, 42, None).unwrap();
    let mut sa = a.start();
    let mut sb = b.start();
    assert_eq!(format!("{:?}", sa), format!("{:?}", sb));
    let moves = [Direction::South, Direction::East, Direction::North, Direction::West];
    let mut t = 0;
    while !sa.finished {
        let mut actions = vec![];
        for ants in &sa.ants {
            for ant in ants {
                actions.push(Action::new(ant.row, ant.col, moves[(t + ant.row) % 4]));
            }
        }
        sa = a.update(actions.clone());
        sb = b.update(actions);
        assert_eq!(format!("{:?}", sa), format!("{:?}", sb));
        t += 1;
    }
    assert!(sb.finished);
    assert_eq!(format!("{:?}", a.map.grid), format!("{:?}", b.map.grid));
}

#[test]
fn no_actions_leave_every_ant_in_place() {
    let map = "\
        rows 3
        cols 5
        players 2
        m a....
        m .....
        m ....b";
    let mut game = Game::new(map, 4, 2, 1, 0, 100, 0, None).unwrap();
    game.move_ants(vec![]);
    assert_eq!(game.map.get(0, 0).unwrap().name(), "Ant");
    assert_eq!(game.map.get(2, 4).unwrap().name(), "Ant");
    game.started = true;
    let state = game.update(vec![]);
    assert_eq!((state.ants[0][0].row, state.ants[0][0].col), (0, 0));
    assert_eq!((state.ants[1][0].row, state.ants[1][0].col), (2, 4));
}

#[test]
fn live_ants_never_outnumber_cells() {
    let map = "\
        rows 2
        cols 2
        players 2
        m ab
        m ba";
    let game = Game::new(map, 4, 2, 1, 0, 100, 0, None).unwrap();
    let total: usize = game.live_ants_per_player_count().iter().sum();
    assert_eq!(total, 4);
    assert!(total <= game.map.grid.len());
}

#[test]
fn raze_keeps_the_razed_state_under_the_ant_until_it_leaves() {
    let map = "\
        rows 1
        cols 3
        players 2
        m 0b.";
    let mut game = Game::new(map, 4, 1, 1, 0, 100, 0, None).unwrap();
    game.scores = vec![1, 0];
    game.map.move_entity((0, 1), (0, 0));
    game.raze_hills();
    assert_eq!(game.scores, vec![0, 2]);
    assert_eq!(game.map.get(0, 0).unwrap().on_ant_hill(), Some(Hill::new(0, false)));
    // A razed hill is razed once.
    game.raze_hills();
    assert_eq!(game.scores, vec![0, 2]);
    game.map.move_entity((0, 0), (0, 1));
    assert_eq!(game.map.get(0, 0), Some(Entity::Hill(Hill::new(0, false))));
}

#[test]
fn a_score_does_not_go_below_zero() {
    let map = "\
        rows 1
        cols 2
        players 2
        m 0b";
    let mut game = Game::new(map, 4, 1, 1, 0, 100, 0, None).unwrap();
    game.map.move_entity((0, 1), (0, 0));
    game.raze_hills();
    assert_eq!(game.scores, vec![0, 2]);
}

#[test]
fn food_among_two_players_is_destroyed() {
    let map = "\
        rows 1
        cols 3
        players 2
        m a*b";
    let mut game = Game::new(map, 4, 1, 1, 0, 100, 0, None).unwrap();
    game.harvest_food();
    assert!(game.map.get(0, 1).is_none());
    assert_eq!(game.hive, vec![0, 0]);
}

#[test]
fn dead_ants_do_not_harvest() {
    let map = "\
        rows 1
        cols 3
        players 2
        m a*b";
    let mut game = Game::new(map, 4, 1, 1, 0, 100, 0, None).unwrap();
    game.map.set_alive(0, 2, false);
    game.harvest_food();
    assert!(game.map.get(0, 1).is_none());
    assert_eq!(game.hive, vec![1, 0]);
}

#[test]
fn end_game_reasons_come_in_order() {
    let map = "\
        rows 1
        cols 3
        players 2
        m a.b";
    let mut game = Game::new(map, 4, 1, 1, 0, 3, 0, None).unwrap();
    game.check_for_endgame();
    assert!(!game.finished);
    game.turn = 3;
    game.check_for_endgame();
    assert_eq!(game.finished_reason, Some(FinishedReason::TurnLimitReached));
    game.finished = false;
    game.cutoff_threshold = 0;
    game.check_for_endgame();
    assert_eq!(game.finished_reason, Some(FinishedReason::TooMuchFood));
    assert_eq!(game.turns_with_too_much_food, 0);
}

#[test]
fn too_much_food_counts_consecutive_turns() {
    let map = "\
        rows 1
        cols 8
        players 2
        m a******b";
    let mut game = Game::new(map, 4, 1, 1, 0, 100, 0, None).unwrap();
    game.cutoff_threshold = 2;
    // 6 food against 2 ants: 75%, not enough.
    assert!(!game.too_much_food());
    game.map.set(0, 0, Entity::Food(Food));
    game.map.set(0, 7, Entity::Food(Food));
    game.map.set(0, 1, Entity::Ant(ants_engine::Ant::new(90, 0, true, None)));
    // 7 food against 1 ant: 87.5%.
    assert!(game.too_much_food());
    game.check_for_endgame();
    assert_eq!(game.turns_with_too_much_food, 1);
    assert!(game.finished_reason != Some(FinishedReason::TooMuchFood));
    game.finished = false;
    game.finished_reason = None;
    game.check_for_endgame();
    assert_eq!(game.turns_with_too_much_food, 2);
    assert_eq!(game.finished_reason, Some(FinishedReason::TooMuchFood));
}

#[test]
fn rank_is_settled_only_when_no_one_can_catch_up() {
    let map = "\
        rows 3
        cols 3
        players 4
        m 0..
        m ...
        m .3.";
    let mut game = Game::new(map, 4, 1, 1, 0, 100, 0, None).unwrap();
    game.scores = vec![5, 0, 0, 1];
    assert!(game.rank_stabilized());
    game.scores = vec![3, 0, 1, 1];
    assert!(!game.rank_stabilized());
    game.scores = vec![2, 2, 2, 2];
    assert!(!game.rank_stabilized());
    assert_eq!(game.live_ant_hills_per_player(), vec![1, 0, 0, 1]);
}

#[test]
fn lone_survivor_needs_live_ants() {
    let map = "\
        rows 1
        cols 3
        players 2
        m a.a";
    let mut game = Game::new(map, 4, 1, 1, 0, 100, 0, None).unwrap();
    assert!(game.single_player_left());
    game.map.set_alive(0, 0, false);
    game.map.set_alive(0, 2, false);
    assert!(!game.single_player_left());
}

#[test]
fn respawn_draws_distinct_hills_and_pays_from_the_hive() {
    let map = "\
        rows 1
        cols 5
        players 1
        m 0.0.0";
    let mut game = Game::new(map, 4, 1, 1, 0, 100, 3, None).unwrap();
    game.hive = vec![2];
    game.spawn_ants_from_hive();
    assert_eq!(game.hive, vec![0]);
    assert_eq!(game.live_ants_per_player_count(), vec![2]);
    assert_eq!(game.live_ant_hills_per_player(), vec![1]);
}

#[test]
fn random_food_goes_on_distinct_empty_cells() {
    let map = "\
        rows 2
        cols 3
        players 1
        m %..
        m a..";
    let mut game = Game::new(map, 4, 1, 1, 3, 100, 11, None).unwrap();
    game.spawn_food_randomly();
    assert_eq!(game.map.food().len(), 3);
    assert_eq!(game.map.get(0, 0).unwrap().name(), "Water");
    assert_eq!(game.map.get(1, 0).unwrap().name(), "Ant");
}

#[test]
fn the_replay_records_the_game() {
    let mut game =
        Game::new(TWO_PLAYERS, 4, 4, 1, 5, 2, 0, Some("replay.json".to_string())).unwrap();
    game.start();
    game.update(vec![]);
    let state = game.update(vec![]);
    assert!(state.finished);
    match &game.replay_logger {
        Replay::Json(l) => {
            assert_eq!(l.turns.len(), 3);
            assert_eq!(l.turns[2].turn, 2);
            assert_eq!(l.finished_reason.as_deref(), Some("TurnLimitReached"));
            assert!(l.events.iter().any(|(t, e)| *t == 0 && e.entity == "Ant"));
        }
        Replay::NoOp(_) => panic!("a replay was asked for"),
    }
    assert!(matches!(
        create_replay_logger(None, 2, 4, 4, String::new()),
        Replay::NoOp(_)
    ));
}

#[test]
fn cells_are_drawn_with_the_map_alphabet() {
    assert_eq!(cell_char(None), '.');
    assert_eq!(cell_char(from_char('c', 0).unwrap()), 'c');
    assert_eq!(cell_char(from_char('C', 0).unwrap()), 'C');
    assert_eq!(cell_char(from_char('7', 0).unwrap()), '7');
    assert_eq!(cell_char(Some(Entity::Hill(Hill::new(3, false)))), 'X');
    assert_eq!(cell_char(from_char('*', 0).unwrap()), '*');
    assert_eq!(cell_char(from_char('%', 0).unwrap()), '%');
    assert!(from_char('k', 0).is_none());
}

#[test]
fn integer_square_roots() {
    assert_eq!(isqrt(0), 0);
    assert_eq!(isqrt(3), 1);
    assert_eq!(isqrt(4), 2);
    assert_eq!(isqrt(77), 8);
    assert_eq!(isqrt(usize::MAX), 4294967295);
}

#[test]
fn finished_reasons_have_names() {
    assert_eq!(FinishedReason::LoneSurvivor.name(), "LoneSurvivor");
    assert_eq!(FinishedReason::RankStabilized.name(), "RankStabilized");
    assert_eq!(FinishedReason::TooMuchFood.name(), "TooMuchFood");
    assert_eq!(FinishedReason::TurnLimitReached.name(), "TurnLimitReached");
}
