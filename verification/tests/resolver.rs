use slide2048::game::{Coordinates, Grid, Move, Position, StoreError};
use slide2048::resolve::contains_position;

fn board(size: u16, tiles: &[(u16, u16, u32)]) -> Grid {
    let mut grid = Grid::new(10, Coordinates::new(0, 0), size);
    for (x, y, n) in tiles {
        assert_eq!(grid.insert_tile(Position::new(*x, *y), *n), Ok(()));
    }
    grid
}

fn pair(from: (u16, u16), to: (u16, u16)) -> (Position, Position) {
    (Position::new(from.0, from.1), Position::new(to.0, to.1))
}

#[test]
fn getting_new_xy() {
    let mut grid = Grid::new(10, Coordinates::new(0, 0), 4);
    let unavailable = vec![];
    assert!(grid.get_desired_position(Position::new(0, 1), 2, &unavailable).0 == Position::new(0, 1));
    assert!(grid.get_desired_position(Position::new(1, 1), 2, &unavailable).0 == Position::new(0, 1));
    assert!(grid.get_desired_position(Position::new(2, 0), 4, &unavailable).0 == Position::new(0, 0));
    let _ = grid.insert_tile(Position::new(0, 1), 2);
    assert!(grid.get_desired_position(Position::new(1, 1), 2, &unavailable).0 == Position::new(0, 1));
    let held = grid.get_tile(Position::new(0, 1)).unwrap();
    grid.put_tile(Position::new(0, 1), slide2048::game::Tile::new(held.coordinates, 4));
    assert!(grid.get_desired_position(Position::new(1, 1), 4, &unavailable).0 == Position::new(0, 1));
}

#[test]
fn desired_position_reports_the_value_found_afterwards() {
    let grid = board(4, &[(0, 1, 2)]);
    let unavailable = vec![];
    assert_eq!(
        grid.get_desired_position(Position::new(3, 1), 2, &unavailable),
        (Position::new(0, 1), 4)
    );
    assert_eq!(
        grid.get_desired_position(Position::new(3, 1), 8, &unavailable),
        (Position::new(1, 1), 8)
    );
    assert_eq!(
        grid.get_desired_position(Position::new(3, 0), 2, &unavailable),
        (Position::new(0, 0), 2)
    );
}

#[test]
fn desired_position_stops_before_a_merged_cell() {
    let grid = board(4, &[(0, 0, 4)]);
    let unavailable = vec![Position::new(0, 0)];
    assert_eq!(
        grid.get_desired_position(Position::new(2, 0), 4, &unavailable),
        (Position::new(1, 0), 4)
    );
    assert_eq!(
        grid.get_desired_position(Position::new(1, 0), 4, &unavailable),
        (Position::new(1, 0), 4)
    );
}

#[test]
fn desired_position_stays_in_column_zero() {
    let grid = board(4, &[(1, 2, 2)]);
    let unavailable = vec![];
    assert_eq!(
        grid.get_desired_position(Position::new(0, 2), 2, &unavailable),
        (Position::new(0, 2), 2)
    );
}

#[test]
fn contains_position_finds_what_is_listed() {
    let cells = vec![Position::new(1, 2), Position::new(3, 0)];
    assert!(contains_position(&cells, Position::new(3, 0)));
    assert!(!contains_position(&cells, Position::new(0, 3)));
    assert!(!contains_position(&Vec::new(), Position::new(0, 0)));
}

#[test]
fn two_equal_tiles_resolve_to_one_move_left() {
    let mut grid = board(4, &[(0, 0, 2), (2, 0, 2)]);
    assert_eq!(grid.check(Move::Left), vec![pair((2, 0), (0, 0))]);
}

#[test]
fn two_different_tiles_side_by_side_do_not_move_left() {
    let mut grid = board(4, &[(0, 0, 2), (1, 0, 4)]);
    assert_eq!(grid.check(Move::Left), vec![]);
}

#[test]
fn check_leaves_the_grid_as_it_was() {
    let mut grid = board(4, &[(3, 1, 2), (0, 0, 2), (2, 2, 8)]);
    let before = grid.clone();
    let _ = grid.check(Move::Right);
    assert_eq!(grid, before);
    let _ = grid.check(Move::Up);
    assert_eq!(grid, before);
    let _ = grid.check(Move::Down);
    assert_eq!(grid, before);
    let _ = grid.check(Move::Left);
    assert_eq!(grid, before);
}

#[test]
fn tiles_are_taken_in_order_of_column_not_of_insertion() {
    let mut grid = board(4, &[(2, 0, 4), (1, 0, 2)]);
    assert_eq!(grid.check(Move::Left), vec![pair((1, 0), (0, 0)), pair((2, 0), (1, 0))]);
}

#[test]
fn a_tile_does_not_jump_over_another_value() {
    let mut grid = board(4, &[(0, 0, 2), (1, 0, 4), (3, 0, 2)]);
    assert_eq!(grid.check(Move::Left), vec![pair((3, 0), (2, 0))]);
}

#[test]
fn four_equal_tiles_merge_in_pairs() {
    let mut grid = board(4, &[(0, 0, 2), (1, 0, 2), (2, 0, 2), (3, 0, 2)]);
    assert_eq!(
        grid.check(Move::Left),
        vec![pair((1, 0), (0, 0)), pair((2, 0), (1, 0)), pair((3, 0), (1, 0))]
    );
}

#[test]
fn a_merged_tile_does_not_merge_again() {
    let mut grid = board(4, &[(0, 0, 2), (1, 0, 2), (2, 0, 4)]);
    assert_eq!(grid.check(Move::Left), vec![pair((1, 0), (0, 0)), pair((2, 0), (1, 0))]);
}

#[test]
fn three_equal_tiles_merge_the_two_nearest_to_the_wall() {
    let mut grid = board(4, &[(1, 0, 2), (2, 0, 2), (3, 0, 2)]);
    assert_eq!(
        grid.check(Move::Left),
        vec![pair((1, 0), (0, 0)), pair((2, 0), (0, 0)), pair((3, 0), (1, 0))]
    );
}

#[test]
fn move_right_mirrors_move_left() {
    let mut grid = board(4, &[(0, 0, 2), (2, 0, 2)]);
    assert_eq!(grid.check(Move::Right), vec![pair((2, 0), (3, 0)), pair((0, 0), (3, 0))]);
}

#[test]
fn move_up_slides_along_the_column() {
    let mut grid = board(4, &[(1, 0, 2), (1, 3, 2)]);
    assert_eq!(grid.check(Move::Up), vec![pair((1, 3), (1, 0))]);
}

#[test]
fn move_down_slides_along_the_column() {
    let mut grid = board(4, &[(1, 0, 2)]);
    assert_eq!(grid.check(Move::Down), vec![pair((1, 0), (1, 3))]);
    let mut grid = board(4, &[(1, 0, 2), (1, 3, 4), (2, 1, 8)]);
    assert_eq!(grid.check(Move::Down), vec![pair((2, 1), (2, 3)), pair((1, 0), (1, 2))]);
}

#[test]
fn rows_do_not_disturb_each_other() {
    let mut grid = board(4, &[(1, 0, 2), (1, 1, 2), (3, 1, 2), (2, 3, 4)]);
    assert_eq!(
        grid.check(Move::Left),
        vec![pair((1, 0), (0, 0)), pair((1, 1), (0, 1)), pair((2, 3), (0, 3)), pair((3, 1), (0, 1))]
    );
}

#[test]
fn a_packed_board_yields_no_move_in_its_direction() {
    let mut grid = board(4, &[(0, 0, 2), (1, 0, 4), (2, 0, 2), (0, 1, 8), (0, 3, 2), (1, 3, 16)]);
    assert_eq!(grid.check(Move::Left), vec![]);
    assert!(!grid.check(Move::Right).is_empty());
    let mut packed_up = board(3, &[(0, 0, 2), (0, 1, 4), (2, 0, 8)]);
    assert_eq!(packed_up.check(Move::Up), vec![]);
}

#[test]
fn an_empty_board_yields_no_move() {
    let mut grid = Grid::new(10, Coordinates::new(0, 0), 4);
    assert_eq!(grid.check(Move::Left), vec![]);
    assert_eq!(grid.check(Move::Right), vec![]);
    assert_eq!(grid.check(Move::Up), vec![]);
    assert_eq!(grid.check(Move::Down), vec![]);
    assert!(!grid.can_move());
}

#[test]
fn can_move_tells_whether_any_direction_changes_the_board() {
    let mut free = board(2, &[(0, 0, 2)]);
    assert!(free.can_move());
    let mut stuck = board(2, &[(0, 0, 2), (1, 0, 4), (0, 1, 8), (1, 1, 16)]);
    assert!(!stuck.can_move());
    let mut mergeable = board(2, &[(0, 0, 2), (1, 0, 4), (0, 1, 8), (1, 1, 4)]);
    assert!(mergeable.can_move());
}

#[test]
fn insert_refuses_an_occupied_cell() {
    let mut grid = board(4, &[(1, 1, 2)]);
    let before = grid.clone();
    assert_eq!(grid.insert_tile(Position::new(1, 1), 4), Err(StoreError::Occupied));
    assert_eq!(grid, before);
}
