use ants_engine::{Entity, FinishedReason, Food, Game};

#[test]
fn when_starting_a_game_the_map_is_reset() {
    let map = "\
        rows 4
        cols 4
        players 2
        m %1.%
        m %..%
        m %..%
        m %.0%";
    let mut game = Game::new(map, 4, 4, 1, 5, 1500, 0, None).unwrap();

    game.map.set(0, 0, Entity::Food(Food));
    game.start();

    assert_eq!(game.map.get(0, 0).unwrap().name(), "Water");
}

#[test]
fn when_starting_a_game_ants_are_spawned_on_ant_hills() {
    let map = "\
        rows 4
        cols 4
        players 2
        m %1.%
        m %..%
        m %..%
        m %.0%";
    let mut game = Game::new(map, 4, 4, 1, 5, 1500, 0, None).unwrap();

    game.start();

    let ant = game.map.get(0, 1).unwrap();
    assert_eq!(ant.name(), "Ant");
    assert_eq!(ant.player().unwrap(), 1);
    assert!(ant.alive().unwrap());
    assert_eq!(ant.on_ant_hill().as_ref().unwrap().player().unwrap(), 1);

    let ant = game.map.get(3, 2).unwrap();
    assert_eq!(ant.name(), "Ant");
    assert_eq!(ant.player().unwrap(), 0);
    assert!(ant.alive().unwrap());
    assert_eq!(ant.on_ant_hill().as_ref().unwrap().player().unwrap(), 0);
}

#[test]
fn when_starting_a_game_food_is_spawned_around_land_locations_for_each_ant_hill() {
    let map = "\
        rows 4
        cols 4
        players 2
        m %1.%
        m %..%
        m %..%
        m %.0%";
    let mut game = Game::new(map, 4, 4, 1, 5, 1500, 0, None).unwrap();

    game.start();

    // The map has 1 ant hill at (0, 1) for player 1 with 3 land cells around it
    // So food should be spawned at (0, 2), (1, 1), and (1, 2)
    assert_eq!(game.map.get(0, 2).as_ref().unwrap().name(), "Food");
    assert_eq!(game.map.get(1, 1).as_ref().unwrap().name(), "Food");
    assert_eq!(game.map.get(1, 2).as_ref().unwrap().name(), "Food");

    // The map has 1 ant hill at (3, 2) for player 0 with 3 land cells around it
    // So food should be spawned at (2, 1), (2, 2), and (3, 1)
    assert_eq!(game.map.get(2, 1).as_ref().unwrap().name(), "Food");
    assert_eq!(game.map.get(2, 2).as_ref().unwrap().name(), "Food");
    assert_eq!(game.map.get(3, 1).as_ref().unwrap().name(), "Food");
}

#[test]
fn when_starting_a_game_the_correct_game_state_is_returned() {
    let map = "\
        rows 4
        cols 4
        players 2
        m %1.%
        m %..%
        m %..%
        m %.0%";
    let mut game = Game::new(map, 4, 4, 1, 5, 1500, 0, None).unwrap();

    let state = game.start();

    assert_eq!(state.turn, 0);
    assert!(!state.finished);
    assert!(state.finished_reason.is_none());

    // The map has 2 players
    assert_eq!(state.scores, vec![1, 1]);
    assert_eq!(state.ants.len(), 2);

    // The map has 1 ant hill at (3, 2) for player 0
    assert_eq!(state.ants[0].len(), 1);
    assert_eq!(state.ants[0][0].row, 3);
    assert_eq!(state.ants[0][0].col, 2);
    assert_eq!(state.ants[0][0].player, 0);
    assert!(state.ants[0][0].alive);
    // Given the fov radius of 2, the ant at (3, 2) should see 8 entities
    assert_eq!(state.ants[0][0].field_of_vision.len(), 8);
    // Let's check that it was able to see the water next to it at (3, 3)
    assert!(state.ants[0][0]
        .field_of_vision
        .iter()
        .any(|entity| entity.name == "Water" && entity.row == 3 && entity.col == 3));
    // Let's also check that it was able to see the ant hill where it is standing at (3, 2)
    assert!(state.ants[0][0]
        .field_of_vision
        .iter()
        .any(|entity| entity.name == "Hill"
            && entity.row == 3
            && entity.col == 2
            && entity.player.unwrap() == 0
            && entity.alive.unwrap()));

    // The map has 1 ant hill at (0, 1) for player 1
    assert_eq!(state.ants[1].len(), 1);
    assert_eq!(state.ants[1][0].row, 0);
    assert_eq!(state.ants[1][0].col, 1);
    assert_eq!(state.ants[1][0].player, 1);
    assert!(state.ants[1][0].alive);
    // Given the fov radius of 2, the ant at (0, 1) should see 8 entities
    assert_eq!(state.ants[1][0].field_of_vision.len(), 8);
    // Let's check that it was able to see the water next to it at (0, 0)
    assert!(state.ants[1][0]
        .field_of_vision
        .iter()
        .any(|entity| entity.name == "Water" && entity.row == 0 && entity.col == 0));
    // Let's also check that it was able to see the ant hill where it is standing at (0, 1)
    assert!(state.ants[1][0]
        .field_of_vision
        .iter()
        .any(|entity| entity.name == "Hill"
            && entity.row == 0
            && entity.col == 1
            && entity.player.unwrap() == 1
            && entity.alive.unwrap()));
}

#[test]
fn when_starting_a_game_the_initial_scores_are_computed_as_the_number_of_ant_hills_per_player()
{
    let map = "\
        rows 4
        cols 4
        players 2
        m %1.%
        m %1.%
        m %..%
        m %00%";
    let mut game = Game::new(map, 4, 4, 1, 5, 1500, 0, None).unwrap();

    game.start();

    assert_eq!(game.scores, vec![2, 2]);
}

#[test]
fn when_removing_dead_ants_all_dead_ants_are_removed() {
    let map = "\
        rows 2
        cols 2
        players 1
        m 0.
        m a.";
    let mut game = Game::new(map, 4, 4, 1, 5, 1500, 0, None).unwrap();

    assert!(game.map.get(1, 0).unwrap().alive().unwrap());
    game.map.set_alive(1, 0, false);

    game.remove_dead_ants();

    assert!(game.map.get(1, 0).is_none());
}

#[test]
fn when_removing_dead_ants_if_there_are_no_dead_ants_no_ants_are_removed() {
    let map = "\
        rows 2
        cols 2
        players 1
        m 0.
        m a.";
    let mut game = Game::new(map, 4, 4, 1, 5, 1500, 0, None).unwrap();

    assert!(game.map.get(1, 0).unwrap().alive().unwrap());

    game.remove_dead_ants();

    assert!(game.map.get(1, 0).is_some());
}

#[test]
fn when_removing_dead_ants_if_a_dead_ant_is_on_a_hill_the_hill_is_restored() {
    let map = "\
        rows 2
        cols 2
        players 1
        m A.
        m ..";
    let mut game = Game::new(map, 4, 4, 1, 5, 1500, 0, None).unwrap();

    assert_eq!(game.map.get(0, 0).unwrap().name(), "Ant");
    assert!(game.map.get(0, 0).unwrap().alive().unwrap());

    game.map.set_alive(0, 0, false);

    game.remove_dead_ants();

    assert_eq!(game.map.get(0, 0).unwrap().name(), "Hill");
    assert_eq!(game.map.get(0, 0).unwrap().player().unwrap(), 0);
}

#[test]
fn when_removing_dead_ants_if_a_dead_ant_is_on_enemy_hill_the_hill_is_restored() {
    let map = "\
        rows 2
        cols 2
        players 2
        m 0.
        m b.";
    let mut game = Game::new(map, 4, 4, 1, 5, 1500, 0, None).unwrap();

    // Move the ant to the enemy hill
    game.map.move_entity((1, 0), (0, 0));

    assert_eq!(game.map.get(0, 0).unwrap().name(), "Ant");
    assert_eq!(game.map.get(0, 0).unwrap().player().unwrap(), 1);
    assert!(game.map.get(0, 0).unwrap().alive().unwrap());

    game.map.set_alive(0, 0, false);

    game.remove_dead_ants();

    assert_eq!(game.map.get(0, 0).unwrap().name(), "Hill");
    // The hill should be restored to its owner
    assert_eq!(game.map.get(0, 0).unwrap().player().unwrap(), 0);
}

#[test]
fn when_attacking_on_a_one_on_one_battle_both_ants_die() {
    let map = "\
        rows 3
        cols 5
        players 2
        m .....
        m .a.b.
        m .....";
    let mut game = Game::new(map, 4, 5, 1, 5, 1500, 0, None).unwrap();

    assert!(game.map.get(1, 1).unwrap().alive().unwrap());
    assert!(game.map.get(1, 3).unwrap().alive().unwrap());

    game.attack();

    assert!(!game.map.get(1, 1).unwrap().alive().unwrap());
    assert!(!game.map.get(1, 3).unwrap().alive().unwrap());
}

#[test]
fn when_attacking_on_a_two_on_one_battle_ant_a_dies() {
    let map = "\
        rows 3
        cols 5
        players 2
        m ...b.
        m .a...
        m ...b.";
    let mut game = Game::new(map, 4, 5, 1, 5, 1500, 0, None).unwrap();

    assert!(game.map.get(0, 3).unwrap().alive().unwrap());
    assert!(game.map.get(1, 1).unwrap().alive().unwrap());
    assert!(game.map.get(2, 3).unwrap().alive().unwrap());

    game.attack();

    assert!(game.map.get(0, 3).unwrap().alive().unwrap());
    assert!(!game.map.get(1, 1).unwrap().alive().unwrap());
    assert!(game.map.get(2, 3).unwrap().alive().unwrap());
}

#[test]
fn when_attacking_on_a_one_on_one_on_one_battle_all_ants_die() {
    let map = "\
        rows 3
        cols 5
        players 3
        m ...b.
        m .a...
        m ...c.";
    let mut game = Game::new(map, 4, 5, 1, 5, 1500, 0, None).unwrap();

    assert!(game.map.get(0, 3).unwrap().alive().unwrap());
    assert!(game.map.get(1, 1).unwrap().alive().unwrap());
    assert!(game.map.get(2, 3).unwrap().alive().unwrap());

    game.attack();

    assert!(!game.map.get(0, 3).unwrap().alive().unwrap());
    assert!(!game.map.get(1, 1).unwrap().alive().unwrap());
    assert!(!game.map.get(2, 3).unwrap().alive().unwrap());
}

#[test]
fn when_attacking_on_an_ant_sandwich_battle_the_middle_ant_dies() {
    let map = "\
        rows 3
        cols 5
        players 3
        m .....
        m a.b.c
        m .....";
    let mut game = Game::new(map, 4, 5, 1, 5, 1500, 0, None).unwrap();

    assert!(game.map.get(1, 0).unwrap().alive().unwrap());
    assert!(game.map.get(1, 2).unwrap().alive().unwrap());
    assert!(game.map.get(1, 4).unwrap().alive().unwrap());

    game.attack();

    assert!(game.map.get(1, 0).unwrap().alive().unwrap());
    assert!(!game.map.get(1, 2).unwrap().alive().unwrap());
    assert!(game.map.get(1, 4).unwrap().alive().unwrap());
}

#[test]
fn when_attacking_on_a_one_on_two_on_one_battle_ants_b_and_c_die() {
    let map = "\
        rows 3
        cols 5
        players 3
        m ...b.
        m .a.a.
        m ...c.";
    let mut game = Game::new(map, 4, 5, 1, 5, 1500, 0, None).unwrap();

    assert!(game.map.get(0, 3).unwrap().alive().unwrap());
    assert!(game.map.get(1, 1).unwrap().alive().unwrap());
    assert!(game.map.get(1, 3).unwrap().alive().unwrap());
    assert!(game.map.get(2, 3).unwrap().alive().unwrap());

    game.attack();

    assert!(!game.map.get(0, 3).unwrap().alive().unwrap());
    assert!(game.map.get(1, 1).unwrap().alive().unwrap());
    assert!(game.map.get(1, 3).unwrap().alive().unwrap());
    assert!(!game.map.get(2, 3).unwrap().alive().unwrap());
}

#[test]
fn when_attacking_on_a_wall_punch_battle_many_ants_die() {
    let map = "\
        rows 3
        cols 9
        players 2
        m aaaaaaaaa
        m ...bbb...
        m ...bbb...";
    let mut game = Game::new(map, 4, 5, 1, 5, 1500, 0, None).unwrap();

    assert!(game.map.get(0, 0).unwrap().alive().unwrap());
    assert!(game.map.get(0, 1).unwrap().alive().unwrap());
    assert!(game.map.get(0, 2).unwrap().alive().unwrap());
    assert!(game.map.get(0, 3).unwrap().alive().unwrap());
    assert!(game.map.get(0, 4).unwrap().alive().unwrap());
    assert!(game.map.get(0, 5).unwrap().alive().unwrap());
    assert!(game.map.get(0, 6).unwrap().alive().unwrap());
    assert!(game.map.get(0, 7).unwrap().alive().unwrap());
    assert!(game.map.get(0, 8).unwrap().alive().unwrap());
    assert!(game.map.get(1, 3).unwrap().alive().unwrap());
    assert!(game.map.get(1, 4).unwrap().alive().unwrap());
    assert!(game.map.get(1, 5).unwrap().alive().unwrap());
    assert!(game.map.get(2, 3).unwrap().alive().unwrap());
    assert!(game.map.get(2, 4).unwrap().alive().unwrap());
    assert!(game.map.get(2, 5).unwrap().alive().unwrap());

    game.attack();

    assert!(game.map.get(0, 0).unwrap().alive().unwrap());
    assert!(game.map.get(0, 1).unwrap().alive().unwrap());
    assert!(!game.map.get(0, 2).unwrap().alive().unwrap());
    assert!(!game.map.get(0, 3).unwrap().alive().unwrap());
    assert!(!game.map.get(0, 4).unwrap().alive().unwrap());
    assert!(!game.map.get(0, 5).unwrap().alive().unwrap());
    assert!(!game.map.get(0, 6).unwrap().alive().unwrap());
    assert!(game.map.get(0, 7).unwrap().alive().unwrap());
    assert!(game.map.get(0, 8).unwrap().alive().unwrap());
    assert!(!game.map.get(1, 3).unwrap().alive().unwrap());
    assert!(!game.map.get(1, 4).unwrap().alive().unwrap());
    assert!(!game.map.get(1, 5).unwrap().alive().unwrap());
    assert!(!game.map.get(2, 3).unwrap().alive().unwrap());
    assert!(game.map.get(2, 4).unwrap().alive().unwrap());
    assert!(!game.map.get(2, 5).unwrap().alive().unwrap());
}

#[test]
fn when_razing_hills_if_a_hill_does_not_have_an_ant_the_hill_is_not_razed_and_scores_are_not_changed(
) {
    let map = "\
        rows 2
        cols 2
        players 1
        m 0.
        m ..";
    let mut game = Game::new(map, 4, 5, 1, 5, 1500, 0, None).unwrap();
    game.compute_initial_scores();

    assert_eq!(game.scores, vec![1]);
    assert!(game.map.get(0, 0).unwrap().alive().unwrap());

    game.raze_hills();

    assert_eq!(game.scores, vec![1]);
    assert!(game.map.get(0, 0).unwrap().alive().unwrap());
}

#[test]
fn when_razing_hills_if_a_hill_has_an_ant_of_the_same_player_the_hill_is_not_razed_and_scores_are_not_changed(
) {
    let map = "\
        rows 2
        cols 2
        players 1
        m 0.
        m a.";
    let mut game = Game::new(map, 4, 5, 1, 5, 1500, 0, None).unwrap();
    game.compute_initial_scores();

    assert_eq!(game.scores, vec![1]);
    assert_eq!(game.map.get(0, 0).unwrap().name(), "Hill");
    assert!(game.map.get(0, 0).unwrap().alive().unwrap());

    // Move the ant to the hill
    game.map.move_entity((1, 0), (0, 0));
    assert_eq!(game.map.get(0, 0).unwrap().name(), "Ant");

    game.raze_hills();

    assert_eq!(game.scores, vec![1]);
    assert!(game.map.get(0, 0).unwrap().alive().unwrap());
}

#[test]
fn when_razing_hills_if_a_hill_has_a_dead_enemy_ant_the_hill_is_not_razed_and_scores_are_not_changed(
) {
    let map = "\
        rows 2
        cols 2
        players 2
        m 0.
        m b1";
    let mut game = Game::new(map, 4, 5, 1, 5, 1500, 0, None).unwrap();
    game.compute_initial_scores();

    assert_eq!(game.scores, vec![1, 1]);
    assert_eq!(game.map.get(0, 0).unwrap().name(), "Hill");
    assert!(game.map.get(0, 0).unwrap().alive().unwrap());

    // Move the enemy to the hill
    game.map.move_entity((1, 0), (0, 0));
    assert_eq!(game.map.get(0, 0).unwrap().name(), "Ant");

    // Kill the enemy
    game.map.set_alive(0, 0, false);

    game.raze_hills();

    assert_eq!(game.scores, vec![1, 1]);
    assert!(game
        .map
        .get(0, 0)
        .unwrap()
        .on_ant_hill()
        .as_ref()
        .unwrap()
        .alive()
        .unwrap());
}

#[test]
fn when_razing_hills_if_a_hill_has_an_alive_enemy_ant_the_hill_is_razed_and_scores_are_updated()
{
    let map = "\
        rows 2
        cols 2
        players 2
        m 0.
        m b1";
    let mut game = Game::new(map, 4, 5, 1, 5, 1500, 0, None).unwrap();
    game.compute_initial_scores();

    assert_eq!(game.scores, vec![1, 1]);
    assert_eq!(game.map.get(0, 0).unwrap().name(), "Hill");
    assert!(game.map.get(0, 0).unwrap().alive().unwrap());

    // Move the enemy to the hill
    game.map.move_entity((1, 0), (0, 0));
    assert_eq!(game.map.get(0, 0).unwrap().name(), "Ant");

    game.raze_hills();

    // Player 0 loses 1 point for losing the hill
    // Player 1 gains 2 points for razing the hill
    assert_eq!(game.scores, vec![0, 3]);
    assert!(!game
        .map
        .get(0, 0)
        .unwrap()
        .on_ant_hill()
        .as_ref()
        .unwrap()
        .alive()
        .unwrap());
}

#[test]
fn when_spawning_ants_from_hive_if_there_is_no_food_no_ants_are_spawned() {
    let map = "\
        rows 2
        cols 2
        players 2
        m 01
        m ..";
    let mut game = Game::new(map, 4, 5, 1, 5, 1500, 0, None).unwrap();

    game.spawn_ants_from_hive();

    assert_eq!(game.map.get(0, 0).unwrap().name(), "Hill");
    assert_eq!(game.map.get(0, 1).unwrap().name(), "Hill");
    assert_eq!(game.hive, vec![0, 0]);
}

#[test]
fn when_spawning_ants_from_hive_if_the_hill_is_razed_no_ants_are_spawned() {
    let map = "\
        rows 2
        cols 2
        players 1
        m 0.
        m ..";
    let mut game = Game::new(map, 4, 5, 1, 5, 1500, 0, None).unwrap();
    game.hive = vec![1];

    // Raze the hill
    game.map.set_alive(0, 0, false);

    game.spawn_ants_from_hive();

    assert_eq!(game.map.get(0, 0).unwrap().name(), "Hill");
    assert_eq!(game.hive, vec![1]);
}

#[test]
fn when_spawning_ants_from_hive_if_there_is_food_and_one_hill_one_ant_is_spawned() {
    let map = "\
        rows 2
        cols 2
        players 2
        m 01
        m ..";
    let mut game = Game::new(map, 4, 5, 1, 5, 1500, 0, None).unwrap();
    game.hive = vec![1, 1];

    game.spawn_ants_from_hive();

    assert_eq!(game.map.get(0, 0).unwrap().name(), "Ant");
    assert_eq!(game.map.get(0, 0).unwrap().player().unwrap(), 0);
    assert_eq!(game.map.get(0, 1).unwrap().name(), "Ant");
    assert_eq!(game.map.get(0, 1).unwrap().player().unwrap(), 1);
    assert_eq!(game.hive, vec![0, 0]);
}

#[test]
fn when_spawning_ants_from_hive_if_there_is_more_food_and_one_hill_only_one_ant_is_spawned() {
    let map = "\
        rows 2
        cols 2
        players 1
        m 0.
        m ..";
    let mut game = Game::new(map, 4, 5, 1, 5, 1500, 0, None).unwrap();
    game.hive = vec![5];

    game.spawn_ants_from_hive();

    assert_eq!(game.map.get(0, 0).unwrap().name(), "Ant");
    assert_eq!(game.hive, vec![4]);
}

#[test]
fn when_spawning_ants_from_hive_if_there_is_only_one_food_and_multiple_hills_only_one_ant_is_spawned(
) {
    let map = "\
        rows 2
        cols 2
        players 1
        m 0.
        m .0";
    let mut game = Game::new(map, 4, 5, 1, 5, 1500, 0, None).unwrap();
    game.hive = vec![1];

    game.spawn_ants_from_hive();

    // Hill is chosen at random and we make it predictable based on the seed
    assert_eq!(game.map.get(0, 0).unwrap().name(), "Hill");
    assert_eq!(game.map.get(1, 1).unwrap().name(), "Ant");
    assert_eq!(game.hive, vec![0]);
}

#[test]
fn when_spawning_ants_from_hive_if_there_is_enough_food_and_multiple_hills_one_ant_is_spawned_per_hill(
) {
    let map = "\
        rows 2
        cols 2
        players 2
        m 01
        m 10";
    let mut game = Game::new(map, 4, 5, 1, 5, 1500, 0, None).unwrap();
    game.hive = vec![5, 2];

    game.spawn_ants_from_hive();

    assert_eq!(game.map.get(0, 0).unwrap().name(), "Ant");
    assert_eq!(game.map.get(0, 0).unwrap().player().unwrap(), 0);
    assert_eq!(game.map.get(1, 1).unwrap().name(), "Ant");
    assert_eq!(game.map.get(1, 1).unwrap().player().unwrap(), 0);

    assert_eq!(game.map.get(0, 1).unwrap().name(), "Ant");
    assert_eq!(game.map.get(0, 1).unwrap().player().unwrap(), 1);
    assert_eq!(game.map.get(1, 0).unwrap().name(), "Ant");
    assert_eq!(game.map.get(1, 0).unwrap().player().unwrap(), 1);

    assert_eq!(game.hive, vec![3, 0]);
}

#[test]
fn when_harvesting_food_if_there_are_no_ants_around_the_food_nothing_happens() {
    let map = "\
        rows 3
        cols 3
        players 1
        m *..
        m .*.
        m ..*";
    let mut game = Game::new(map, 4, 5, 1, 5, 1500, 0, None).unwrap();

    game.harvest_food();

    assert_eq!(game.map.get(0, 0).unwrap().name(), "Food");
    assert_eq!(game.map.get(1, 1).unwrap().name(), "Food");
    assert_eq!(game.map.get(2, 2).unwrap().name(), "Food");
    assert_eq!(game.hive, vec![0]);
}

#[test]
fn when_harvesting_food_if_there_only_ants_from_the_same_player_around_the_food_the_food_is_harvested_into_the_hive(
) {
    let map = "\
        rows 3
        cols 3
        players 2
        m *ab
        m .aa
        m b.*";
    let mut game = Game::new(map, 4, 5, 1, 5, 1500, 0, None).unwrap();

    game.harvest_food();

    assert!(game.map.get(0, 0).is_none());
    assert!(game.map.get(2, 2).is_none());
    assert_eq!(game.hive, vec![2, 0]);
}

#[test]
fn when_harvesting_food_if_there_are_ants_from_different_players_around_the_food_the_food_is_destroyed(
) {
    let map = "\
        rows 3
        cols 3
        players 2
        m *a.
        m b.a
        m .b*";
    let mut game = Game::new(map, 4, 5, 1, 5, 1500, 0, None).unwrap();

    game.harvest_food();

    assert!(game.map.get(0, 0).is_none());
    assert!(game.map.get(2, 2).is_none());
    assert_eq!(game.hive, vec![0, 0]);
}

#[test]
fn when_harvesting_food_an_ant_can_only_consume_one_food_at_a_time() {
    let map = "\
        rows 3
        cols 3
        players 1
        m .*.
        m *a*
        m .*.";
    let mut game = Game::new(map, 4, 5, 1, 5, 1500, 0, None).unwrap();

    game.harvest_food();

    assert!(game.map.get(0, 1).is_none());
    assert!(game.map.get(1, 0).is_some());
    assert!(game.map.get(1, 2).is_some());
    assert!(game.map.get(2, 1).is_some());
    assert_eq!(game.hive, vec![1]);
}

#[test]
fn when_harvesting_food_two_distinct_ants_from_the_same_player_can_consume_food_at_the_same_time(
) {
    let map = "\
        rows 3
        cols 3
        players 1
        m .*a
        m *a*
        m .*.";
    let mut game = Game::new(map, 4, 5, 1, 5, 1500, 0, None).unwrap();

    game.harvest_food();

    assert!(game.map.get(0, 1).is_none());
    assert!(game.map.get(1, 0).is_none());
    assert!(game.map.get(1, 2).is_some());
    assert!(game.map.get(2, 1).is_some());
    assert_eq!(game.hive, vec![2]);
}

#[test]
fn when_spawning_food_randomly_and_there_is_enough_land_all_food_is_spawned() {
    let map = "\
        rows 3
        cols 3
        players 1
        m ...
        m .a.
        m ...";
    let mut game = Game::new(map, 4, 5, 1, 8, 1500, 0, None).unwrap();

    game.spawn_food_randomly();

    let food = game.map.food();
    let expected_food = vec![
        (0, 0),
        (0, 1),
        (0, 2),
        (1, 0),
        (1, 2),
        (2, 0),
        (2, 1),
        (2, 2),
    ];

    assert_eq!(food.len(), 8);
    assert_eq!(food, expected_food);
}

#[test]
fn when_spawning_food_randomly_and_there_is_not_enough_land_not_all_food_is_spawned() {
    let map = "\
        rows 3
        cols 3
        players 2
        m aa.
        m .a.
        m b.b";
    let mut game = Game::new(map, 4, 5, 1, 9, 1500, 0, None).unwrap();

    game.spawn_food_randomly();

    let food = game.map.food();
    let expected_food = vec![(0, 2), (1, 0), (1, 2), (2, 1)];

    assert_eq!(food.len(), 4);
    assert_eq!(food, expected_food);
}

#[test]
fn when_spawning_food_randomly_and_there_is_no_land_no_food_is_spawned() {
    let map = "\
        rows 3
        cols 3
        players 2
        m aaa
        m aaa
        m aba";
    let mut game = Game::new(map, 4, 5, 1, 9, 1500, 0, None).unwrap();

    game.spawn_food_randomly();
    assert!(game.map.food().is_empty());
}

#[test]
fn when_spawning_food_randomly_and_there_is_enough_current_food_no_more_food_is_spawned() {
    let map = "\
        rows 3
        cols 3
        players 1
        m *..
        m .a.
        m ...";
    // If we use a `food_rate` of 1, we will only spawn 1 food per turn
    // and since the map already has 1 food, we should not spawn any more
    let mut game = Game::new(map, 4, 5, 1, 1, 1500, 0, None).unwrap();

    game.spawn_food_randomly();
    assert_eq!(game.map.food().len(), 1);
}

#[test]
fn when_spawning_food_randomly_and_there_is_some_food_already_only_the_missing_food_is_spawned()
{
    let map = "\
        rows 3
        cols 3
        players 1
        m *..
        m .a.
        m ...";
    // If we use a `food_rate` of 2, we will spawn 2 food per turn
    // and since the map already has 1 food, we should spawn 1 more
    let mut game = Game::new(map, 4, 5, 1, 2, 1500, 0, None).unwrap();

    game.spawn_food_randomly();
    assert_eq!(game.map.food().len(), 2);
}

#[test]
fn when_checking_for_endgame_if_the_food_is_not_being_gathered_the_game_ends() {
    let map = "\
        rows 3
        cols 3
        players 1
        m *a*
        m ***
        m .**";
    let mut game = Game::new(map, 4, 5, 1, 5, 1500, 0, None).unwrap();
    game.cutoff_threshold = 1;

    game.check_for_endgame();

    assert!(game.finished);
    assert_eq!(game.finished_reason, Some(FinishedReason::TooMuchFood));
}

#[test]
fn when_checking_for_endgame_if_only_one_player_remains_with_ants_the_game_ends() {
    let map = "\
        rows 3
        cols 3
        players 2
        m a..
        m aa.
        m ...";
    let mut game = Game::new(map, 4, 5, 1, 5, 1500, 0, None).unwrap();

    game.check_for_endgame();

    assert!(game.finished);
    assert_eq!(game.finished_reason, Some(FinishedReason::LoneSurvivor));
}

#[test]
fn when_checking_for_endgame_if_all_players_are_tied_rank_is_not_stabilized_and_the_game_does_not_end(
) {
    let map = "\
        rows 3
        cols 3
        players 2
        m 0..
        m ...
        m ..1";
    let mut game = Game::new(map, 4, 5, 1, 5, 1500, 0, None).unwrap();
    game.compute_initial_scores();

    game.check_for_endgame();

    assert!(!game.finished);
    assert!(game.finished_reason.is_none());
    // Sanity check to make sure the scores themselves are not changed
    assert_eq!(game.scores, vec![1, 1]);
}

#[test]
fn when_checking_for_endgame_if_the_current_leader_cannot_be_surpassed_the_rank_is_stabilized_and_the_game_ends(
) {
    let map = "\
        rows 3
        cols 3
        players 4
        m 0..
        m ...
        m .3.";
    let mut game = Game::new(map, 4, 5, 1, 5, 1500, 0, None).unwrap();
    // If player 0 razes the hills of player 1 and 2, the scores are 0=5, 1=0, 2=0, 3=1
    // In this case, even if player 3 were to raze the hill of player 0, the score would be 0=4, 1=0, 2=0, 3=3
    // so player 3 can't possibly do better than 2nd place and the game ends
    game.scores = vec![5, 0, 0, 1];

    game.check_for_endgame();

    assert!(game.finished);
    assert_eq!(game.finished_reason, Some(FinishedReason::RankStabilized));
    // Sanity check to make sure the scores themselves are not changed
    assert_eq!(game.scores, vec![5, 0, 0, 1]);
}

#[test]
fn when_checking_for_endgame_if_the_current_leader_can_be_surpassed_the_rank_is_not_stabilized_and_the_game_does_not_end(
) {
    let map = "\
        rows 3
        cols 3
        players 4
        m 0..
        m .2.
        m .3.";
    let mut game = Game::new(map, 4, 5, 1, 5, 1500, 0, None).unwrap();
    // If player 0 razes the hills of player 1, the scores are 0=3, 1=0, 2=1, 3=1
    // In this case, if player 2 were to raze all the other hills, the score would be 0=2, 1=0, 2=3, 3=0
    // and player 2 would win, so the rank is not stabilized yet.
    // Note that the same happens if player 3 were to raze all the other hills.
    game.scores = vec![3, 0, 1, 1];

    game.check_for_endgame();

    assert!(!game.finished);
    assert!(game.finished_reason.is_none());
    // Sanity check to make sure the scores themselves are not changed
    assert_eq!(game.scores, vec![3, 0, 1, 1]);
}

#[test]
fn when_checking_for_endgame_if_the_max_number_of_turns_is_reached_the_game_ends() {
    let map = "\
        rows 3
        cols 3
        players 2
        m 0..
        m ...
        m ..1";
    let mut game = Game::new(map, 4, 5, 1, 5, 1500, 0, None).unwrap();
    game.turn = 1500;

    game.check_for_endgame();

    assert!(game.finished);
    assert_eq!(game.finished_reason, Some(FinishedReason::TurnLimitReached));
}
