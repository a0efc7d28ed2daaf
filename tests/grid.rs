use ants_engine::{Entity, Grid, Water};

#[test]
fn when_parsing_a_map_it_is_created_with_the_correct_width_height_and_players() {
    let map = "\
        rows 2
        cols 2
        players 1
        m ..
        m .0";
    let map = Grid::parse(map).unwrap();

    assert_eq!(map.width, 2);
    assert_eq!(map.height, 2);
    assert_eq!(map.players, 1);
}

#[test]
fn when_getting_a_cell_by_row_and_col_the_correct_entity_is_returned() {
    let map = "\
        rows 3
        cols 3
        players 2
        m .b.
        m *0%";
    let map = Grid::parse(map).unwrap();

    assert!(map.get(0, 0).is_none());
    assert_eq!(map.get(0, 1).unwrap().name(), "Ant");
    assert_eq!(map.get(0, 1).unwrap().player().unwrap(), 1);
    assert!(map.get(0, 1).unwrap().alive().unwrap());
    assert_eq!(map.get(1, 0).unwrap().name(), "Food");
    assert_eq!(map.get(1, 1).unwrap().name(), "Hill");
    assert_eq!(map.get(1, 1).unwrap().player().unwrap(), 0);
    assert_eq!(map.get(1, 2).unwrap().name(), "Water");
}

#[test]
fn when_getting_a_cell_by_row_and_col_and_mutating_it_the_entity_is_correctly_updated() {
    let map = "\
        rows 2
        cols 2
        players 1
        m ..
        m .a";
    let mut map = Grid::parse(map).unwrap();
    map.set_alive(1, 1, false);

    assert!(!map.get(1, 1).unwrap().alive().unwrap());
}

#[test]
fn when_setting_the_value_of_an_entity_the_entity_is_correctly_updated() {
    let map = "\
        rows 2
        cols 2
        players 1
        m ..
        m .0";
    let mut map = Grid::parse(map).unwrap();
    map.set(1, 1, Entity::Water(Water));

    assert_eq!(map.get(1, 1).unwrap().name(), "Water");
}

#[test]
fn when_removing_an_entity_the_cell_becomes_empty() {
    let map = "\
        rows 2
        cols 2
        players 1
        m ..
        m .0";
    let mut map = Grid::parse(map).unwrap();
    map.remove(1, 1);

    assert!(map.get(1, 1).is_none());
}

#[test]
fn when_getting_all_ant_hills_the_correct_entities_are_returned() {
    let map = "\
        rows 3
        cols 3
        players 3
        m .0.
        m .1.
        m .2.";
    let map = Grid::parse(map).unwrap();

    let ant_hills = map.ant_hills();
    assert_eq!(ant_hills.len(), 3);

    assert_eq!(ant_hills[0].0.name(), "Hill");
    assert_eq!(ant_hills[0].0.player().unwrap(), 0);
    assert_eq!(ant_hills[0].1, 0);
    assert_eq!(ant_hills[0].2, 1);

    assert_eq!(ant_hills[1].0.name(), "Hill");
    assert_eq!(ant_hills[1].0.player().unwrap(), 1);
    assert_eq!(ant_hills[1].1, 1);
    assert_eq!(ant_hills[1].2, 1);

    assert_eq!(ant_hills[2].0.name(), "Hill");
    assert_eq!(ant_hills[2].0.player().unwrap(), 2);
    assert_eq!(ant_hills[2].1, 2);
    assert_eq!(ant_hills[2].2, 1);
}

#[test]
fn when_getting_all_ants_the_correct_entities_are_returned() {
    let map = "\
        rows 3
        cols 3
        players 3
        m ..a
        m b..
        m .c.";
    let map = Grid::parse(map).unwrap();

    let ants = map.ants();
    assert_eq!(ants.len(), 3);

    assert_eq!(ants[0].0.name(), "Ant");
    assert_eq!(ants[0].0.player().unwrap(), 0);
    assert_eq!(ants[0].1, 0);
    assert_eq!(ants[0].2, 2);

    assert_eq!(ants[1].0.name(), "Ant");
    assert_eq!(ants[1].0.player().unwrap(), 1);
    assert_eq!(ants[1].1, 1);
    assert_eq!(ants[1].2, 0);

    assert_eq!(ants[2].0.name(), "Ant");
    assert_eq!(ants[2].0.player().unwrap(), 2);
    assert_eq!(ants[2].1, 2);
    assert_eq!(ants[2].2, 1);
}

#[test]
fn when_getting_all_food_the_correct_entities_are_returned() {
    let map = "\
        rows 3
        cols 3
        players 1
        m .0.
        m .*.
        m .0.";
    let map = Grid::parse(map).unwrap();

    let food = map.food();
    assert_eq!(food.len(), 1);

    assert_eq!(food[0].0, 1);
    assert_eq!(food[0].1, 1);
}

#[test]
fn when_getting_all_land_the_correct_coordinates_are_returned() {
    let map = "\
        rows 3
        cols 3
        players 1
        m .0.
        m .*.
        m .0.";
    let map = Grid::parse(map).unwrap();

    let land = map.land();
    let expected_land = vec![(0, 0), (0, 2), (1, 0), (1, 2), (2, 0), (2, 2)];

    assert_eq!(land.len(), 6);
    assert_eq!(land, expected_land);
}

#[test]
fn when_getting_all_land_around_a_middle_cell_the_correct_coordinates_are_returned() {
    let map = "\
        rows 3
        cols 3
        players 1
        m ...
        m .0.
        m ...";
    let map = Grid::parse(map).unwrap();

    let lands = map.land_around(1, 1);
    let expected_lands = vec![
        (0, 0),
        (0, 1),
        (0, 2),
        (1, 0),
        (1, 2),
        (2, 0),
        (2, 1),
        (2, 2),
    ];

    assert_eq!(lands.len(), 8);
    assert_eq!(lands, expected_lands);
}

#[test]
fn when_getting_all_land_around_an_edge_cell_the_correct_coordinates_are_returned() {
    let map = "\
        rows 3
        cols 3
        players 1
        m ...
        m ...
        m .0.";
    let map = Grid::parse(map).unwrap();

    let lands = map.land_around(2, 1);
    let expected_lands = vec![(1, 0), (1, 1), (1, 2), (2, 0), (2, 2)];

    assert_eq!(lands.len(), 5);
    assert_eq!(lands, expected_lands);
}

#[test]
fn when_getting_all_land_around_a_corner_cell_the_correct_coordinates_are_returned() {
    let map = "\
        rows 3
        cols 3
        players 1
        m 0..
        m ...
        m ...";
    let map = Grid::parse(map).unwrap();

    let lands = map.land_around(0, 0);
    let expected_lands = vec![(0, 1), (1, 0), (1, 1)];

    assert_eq!(lands.len(), 3);
    assert_eq!(lands, expected_lands);
}

#[test]
fn when_getting_all_land_around_a_cell_with_no_land_no_coordinates_are_returned() {
    let map = "\
        rows 3
        cols 3
        players 1
        m .*0
        m .**
        m ...";
    let map = Grid::parse(map).unwrap();

    let lands = map.land_around(0, 2);

    assert_eq!(lands.len(), 0);
}

#[test]
fn when_getting_the_field_of_vision_of_a_cell_the_correct_entities_are_returned() {
    let map = "\
        rows 5
        cols 5
        players 2
        m ..*..
        m ..*%.
        m .*A.%
        m .1...
        m ..*..";
    let map = Grid::parse(map).unwrap();

    // Get the field of vision of the ant at (2, 2), on top of its own hill, with a radius of 2
    let fov = map.field_of_vision((2, 2), 4);

    assert_eq!(fov.len(), 8);

    assert_eq!(fov[0].0.name(), "Food");
    assert_eq!(fov[0].1, 0);
    assert_eq!(fov[0].2, 2);

    assert_eq!(fov[1].0.name(), "Food");
    assert_eq!(fov[1].1, 1);
    assert_eq!(fov[1].2, 2);

    assert_eq!(fov[2].0.name(), "Water");
    assert_eq!(fov[2].1, 1);
    assert_eq!(fov[2].2, 3);

    assert_eq!(fov[3].0.name(), "Food");
    assert_eq!(fov[3].1, 2);
    assert_eq!(fov[3].2, 1);

    // The ant is on its own hill which should be included in the field of vision
    // The ant itself should not be included in the field of vision because it's the center
    assert_eq!(fov[4].0.name(), "Hill");
    assert_eq!(fov[4].0.player().unwrap(), 0);
    assert_eq!(fov[4].1, 2);
    assert_eq!(fov[4].2, 2);

    assert_eq!(fov[5].0.name(), "Water");
    assert_eq!(fov[5].1, 2);
    assert_eq!(fov[5].2, 4);

    assert_eq!(fov[6].0.name(), "Hill");
    assert_eq!(fov[6].0.player().unwrap(), 1);
    assert_eq!(fov[6].1, 3);
    assert_eq!(fov[6].2, 1);

    assert_eq!(fov[7].0.name(), "Food");
    assert_eq!(fov[7].1, 4);
    assert_eq!(fov[7].2, 2);
}

#[test]
fn when_moving_an_ant_to_an_empty_cell_the_ant_is_moved() {
    let map = "\
        rows 3
        cols 3
        players 1
        m ...
        m .a.
        m ...";
    let mut map = Grid::parse(map).unwrap();
    let did_move = map.move_entity((1, 1), (0, 1));

    assert!(map.get(1, 1).is_none());
    assert_eq!(map.get(0, 1).unwrap().name(), "Ant");
    assert!(did_move);
}

#[test]
fn when_moving_an_ant_from_a_hill_to_an_empty_cell_the_ant_is_moved_and_the_hill_is_restored() {
    let map = "\
        rows 3
        cols 3
        players 1
        m ...
        m .A.
        m ...";
    let mut map = Grid::parse(map).unwrap();
    let did_move = map.move_entity((1, 1), (0, 1));

    assert_eq!(map.get(0, 1).unwrap().name(), "Ant");
    assert_eq!(map.get(1, 1).unwrap().name(), "Hill");
    assert!(did_move);
}

#[test]
fn when_moving_an_ant_to_a_hill_the_ant_is_moved_on_the_hill() {
    let map = "\
        rows 3
        cols 3
        players 1
        m ...
        m .a.
        m .0.";
    let mut map = Grid::parse(map).unwrap();
    let did_move = map.move_entity((1, 1), (2, 1));

    assert!(map.get(1, 1).is_none());
    assert_eq!(map.get(2, 1).unwrap().name(), "Ant");
    assert!(map.get(2, 1).unwrap().on_ant_hill().is_some());
    assert_eq!(
        map.get(2, 1)
            .unwrap()
            .on_ant_hill()
            .unwrap()
            .player()
            .unwrap(),
        0
    );
    assert!(map
        .get(2, 1)
        .unwrap()
        .on_ant_hill()
        .unwrap()
        .alive()
        .unwrap());
    assert!(did_move);
}

#[test]
fn when_moving_an_empty_entity_movement_is_ignored() {
    let map = "\
        rows 3
        cols 3
        players 1
        m ...
        m .a.
        m ...";
    let mut map = Grid::parse(map).unwrap();
    let did_move = map.move_entity((0, 1), (0, 2));

    assert!(map.get(0, 1).is_none());
    assert!(!did_move);
}

#[test]
fn when_moving_an_entity_that_is_not_an_ant_movement_is_ignored() {
    let map = "\
        rows 3
        cols 3
        players 1
        m %..
        m .a.
        m ...";
    let mut map = Grid::parse(map).unwrap();
    let did_move = map.move_entity((0, 0), (1, 0));

    assert_eq!(map.get(0, 0).unwrap().name(), "Water");
    assert!(map.get(1, 0).is_none());
    assert!(!did_move);
}

#[test]
fn when_moving_a_dead_ant_movement_is_ignored() {
    let map = "\
        rows 3
        cols 3
        players 1
        m ...
        m .a.
        m ...";
    let mut map = Grid::parse(map).unwrap();
    map.set_alive(1, 1, false);
    let did_move = map.move_entity((1, 1), (0, 1));

    assert!(map.get(0, 1).is_none());
    assert_eq!(map.get(1, 1).unwrap().name(), "Ant");
    assert!(!did_move);
}

#[test]
fn when_moving_an_ant_to_water_movement_is_ignored() {
    let map = "\
        rows 3
        cols 3
        players 1
        m ...
        m .a.
        m .%.";
    let mut map = Grid::parse(map).unwrap();
    let did_move = map.move_entity((1, 1), (2, 1));

    assert_eq!(map.get(1, 1).unwrap().name(), "Ant");
    assert_eq!(map.get(2, 1).unwrap().name(), "Water");
    assert!(!did_move);
}

#[test]
fn when_moving_an_ant_to_food_movement_is_ignored() {
    let map = "\
        rows 3
        cols 3
        players 1
        m ...
        m .a*
        m ...";
    let mut map = Grid::parse(map).unwrap();
    let did_move = map.move_entity((1, 1), (1, 2));

    assert_eq!(map.get(1, 1).unwrap().name(), "Ant");
    assert_eq!(map.get(1, 2).unwrap().name(), "Food");
    assert!(!did_move);
}

#[test]
fn when_moving_an_ant_outside_of_the_right_side_movement_is_ignored() {
    let map = "\
        rows 3
        cols 3
        players 2
        m ...
        m ..a
        m ...";
    let mut map = Grid::parse(map).unwrap();
    let did_move = map.move_entity((1, 2), (1, 3));

    assert_eq!(map.get(1, 2).unwrap().name(), "Ant");
    assert!(!did_move);
}

#[test]
fn when_moving_an_ant_outside_of_the_bottom_side_movement_is_ignored() {
    let map = "\
        rows 3
        cols 3
        players 2
        m ...
        m ...
        m ..a";
    let mut map = Grid::parse(map).unwrap();
    let did_move = map.move_entity((2, 2), (3, 2));

    assert_eq!(map.get(2, 2).unwrap().name(), "Ant");
    assert!(!did_move);
}

#[test]
fn when_moving_an_ant_to_a_cell_with_another_ant_both_ants_die() {
    let map = "\
        rows 3
        cols 3
        players 2
        m ...
        m .a.
        m .b.";
    let mut map = Grid::parse(map).unwrap();
    let did_move = map.move_entity((1, 1), (2, 1));

    assert!(!map.get(1, 1).unwrap().alive().unwrap());
    assert!(!map.get(2, 1).unwrap().alive().unwrap());
    assert!(did_move);
}

#[test]
fn when_moving_an_ant_to_a_cell_with_another_dead_ant_movement_is_ignored() {
    let map = "\
        rows 3
        cols 3
        players 1
        m ...
        m .a.
        m .a.";
    let mut map = Grid::parse(map).unwrap();
    map.set_alive(2, 1, false);
    let did_move = map.move_entity((1, 1), (2, 1));

    assert_eq!(map.get(1, 1).unwrap().name(), "Ant");
    assert!(map.get(1, 1).unwrap().alive().unwrap());

    assert_eq!(map.get(2, 1).unwrap().name(), "Ant");
    assert!(!map.get(2, 1).unwrap().alive().unwrap());
    assert!(!did_move);
}

#[test]
fn when_moving_an_ant_to_the_same_cell_movement_is_ignored() {
    let map = "\
        rows 3
        cols 3
        players 1
        m ...
        m .a.
        m ...";
    let mut map = Grid::parse(map).unwrap();
    let id = map.get(1, 1).unwrap().id();

    let did_move = map.move_entity((1, 1), (1, 1));

    assert_eq!(map.get(1, 1).unwrap().name(), "Ant");
    assert_eq!(map.get(1, 1).unwrap().id(), id);
    assert!(map.get(1, 1).unwrap().alive().unwrap());
    assert!(!did_move);
}
