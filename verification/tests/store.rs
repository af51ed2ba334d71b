use slide2048::game::{Coordinates, Flip, Grid, Position, Tile, MARGINX, MARGINY, STEPX, STEPY};
use slide2048::rotate::flip_position;

fn board(size: u16, tiles: &[(u16, u16, u32)]) -> Grid {
    let mut grid = Grid::new(10, Coordinates::new(0, 0), size);
    for (x, y, n) in tiles {
        assert_eq!(grid.insert_tile(Position::new(*x, *y), *n), Ok(()));
    }
    grid
}

#[test]
fn constants_have_their_values() {
    assert_eq!(MARGINX, 2);
    assert_eq!(MARGINY, 1);
    assert_eq!(STEPX, 4);
    assert_eq!(STEPY, 2);
    assert_eq!(slide2048::spawn::SPAWN_VALUE, 2);
}

#[test]
fn new_grid_is_empty_and_halves_the_tile_height() {
    let grid = Grid::new(10, Coordinates::new(3, 7), 5);
    assert!(grid.tiles.is_empty());
    assert!(grid.moving_tiles.is_empty());
    assert_eq!(grid.size, 5);
    assert_eq!(grid.tile_width, 10);
    assert_eq!(grid.tile_height, 5);
    assert_eq!(grid.coordinates, Coordinates::new(3, 7));
    assert!(!grid.over);
    let odd = Grid::new(7, Coordinates::new(0, 0), 4);
    assert_eq!(odd.tile_height, 3);
}

#[test]
fn coordinates_follow_the_origin_and_the_pitch() {
    let grid = Grid::new(6, Coordinates::new(5, 9), 4);
    assert_eq!(grid.get_coordinates_at(Position::new(0, 0)), Coordinates::new(7, 10));
    assert_eq!(grid.get_coordinates_at(Position::new(3, 2)), Coordinates::new(5 + 2 + 3 * 8, 9 + 1 + 2 * 4));
    assert_eq!(grid.get_coordinates_at(Position::new(3, 3)), Coordinates::new(31, 22));
}

#[test]
fn frame_is_four_tiles_wide_and_half_as_high() {
    let grid = Grid::new(10, Coordinates::new(0, 0), 4);
    assert_eq!(grid.width(), 50);
    assert_eq!(grid.height(), 25);
    let small = Grid::new(6, Coordinates::new(0, 0), 4);
    assert_eq!(small.width(), 34);
    assert_eq!(small.height(), 17);
}

#[test]
fn inserted_tile_rests_on_its_cell() {
    let grid = board(4, &[(2, 1, 8)]);
    assert_eq!(
        grid.get_tile(Position::new(2, 1)),
        Some(Tile::new(Coordinates::new(26, 7), 8))
    );
    assert_eq!(grid.get_tile(Position::new(1, 2)), None);
    assert_eq!(grid.tiles, vec![(Position::new(2, 1), Tile::new(Coordinates::new(26, 7), 8))]);
}

#[test]
fn put_tile_overwrites_in_place_and_appends_otherwise() {
    let mut grid = board(4, &[(0, 0, 2), (1, 0, 4)]);
    grid.put_tile(Position::new(0, 0), Tile::new(Coordinates::new(9, 9), 16));
    grid.put_tile(Position::new(3, 3), Tile::new(Coordinates::new(1, 1), 32));
    assert_eq!(
        grid.tiles,
        vec![
            (Position::new(0, 0), Tile::new(Coordinates::new(9, 9), 16)),
            (Position::new(1, 0), Tile::new(Coordinates::new(14, 1), 4)),
            (Position::new(3, 3), Tile::new(Coordinates::new(1, 1), 32)),
        ]
    );
}

#[test]
fn remove_tile_empties_the_cell_and_keeps_the_rest() {
    let mut grid = board(4, &[(0, 0, 2), (1, 0, 4), (2, 0, 8)]);
    grid.remove_tile(Position::new(1, 0));
    assert_eq!(grid.get_tile(Position::new(1, 0)), None);
    assert_eq!(grid.get_tile(Position::new(0, 0)).unwrap().n, 2);
    assert_eq!(grid.get_tile(Position::new(2, 0)).unwrap().n, 8);
    assert_eq!(grid.tiles.len(), 2);
    grid.remove_tile(Position::new(3, 3));
    assert_eq!(grid.tiles.len(), 2);
}

#[test]
fn get_tile_mut_changes_the_tile_in_the_store() {
    let mut grid = board(4, &[(0, 0, 2), (1, 0, 4)]);
    {
        let tile = grid.get_tile_mut(Position::new(1, 0)).unwrap();
        assert_eq!(tile.n, 4);
        tile.mv(Coordinates::new(10, 1));
        tile.update_n(64);
    }
    assert_eq!(
        grid.get_tile(Position::new(1, 0)),
        Some(Tile::new(Coordinates::new(10, 1), 64))
    );
    assert_eq!(grid.get_tile(Position::new(0, 0)).unwrap().n, 2);
    assert!(grid.get_tile_mut(Position::new(2, 2)).is_none());
}

#[test]
fn tile_mv_and_update_n_change_one_field_each() {
    let mut tile = Tile::new(Coordinates::new(1, 2), 2);
    tile.mv(Coordinates::new(5, 6));
    assert_eq!(tile, Tile::new(Coordinates::new(5, 6), 2));
    tile.update_n(4);
    assert_eq!(tile, Tile::new(Coordinates::new(5, 6), 4));
}

#[test]
fn remove_moving_tile_takes_out_the_move_from_that_cell() {
    let mut grid = board(4, &[(1, 0, 2), (2, 1, 2)]);
    grid.moving_tiles = vec![
        (Position::new(1, 0), Position::new(0, 0)),
        (Position::new(2, 1), Position::new(0, 1)),
    ];
    grid.remove_moving_tile(Position::new(2, 1));
    assert_eq!(grid.moving_tiles, vec![(Position::new(1, 0), Position::new(0, 0))]);
    grid.remove_moving_tile(Position::new(1, 0));
    assert!(grid.moving_tiles.is_empty());
}

#[test]
fn total_and_highest_value() {
    let grid = board(4, &[(0, 0, 2), (1, 0, 64), (2, 0, 8)]);
    assert_eq!(grid.total_value(), Some(74));
    assert_eq!(grid.max_value(), 64);
    let empty = Grid::new(10, Coordinates::new(0, 0), 4);
    assert_eq!(empty.total_value(), Some(0));
    assert_eq!(empty.max_value(), 0);
    let huge = board(4, &[(0, 0, 0x8000_0000), (1, 0, 0x8000_0000)]);
    assert_eq!(huge.total_value(), None);
    let edge = board(4, &[(0, 0, 0x8000_0000), (1, 0, 0x7fff_ffff)]);
    assert_eq!(edge.total_value(), Some(u32::MAX));
}

#[test]
fn flip_position_turns_a_cell() {
    let p = Position::new(1, 0);
    assert_eq!(flip_position(Flip::Horizontal, 3, p), Position::new(2, 0));
    assert_eq!(flip_position(Flip::Clock, 3, p), Position::new(0, 2));
    assert_eq!(flip_position(Flip::CounterClock, 3, p), Position::new(3, 1));
}

#[test]
fn a_turn_and_its_inverse_bring_every_cell_back() {
    for size in 2u16..7 {
        for x in 0..size {
            for y in 0..size {
                let p = Position::new(x, y);
                let s = size - 1;
                assert_eq!(
                    flip_position(Flip::Horizontal, s, flip_position(Flip::Horizontal, s, p)),
                    p
                );
                assert_eq!(
                    flip_position(Flip::CounterClock, s, flip_position(Flip::Clock, s, p)),
                    p
                );
                assert_eq!(
                    flip_position(Flip::Clock, s, flip_position(Flip::CounterClock, s, p)),
                    p
                );
            }
        }
    }
}

#[test]
fn flip_turns_tiles_and_moves_and_keeps_values() {
    let mut grid = board(4, &[(0, 0, 2), (3, 1, 4)]);
    grid.moving_tiles = vec![(Position::new(3, 1), Position::new(0, 1))];
    let before = grid.clone();
    grid.flip(Flip::Clock);
    assert_eq!(
        grid.tiles,
        vec![
            (Position::new(0, 3), before.tiles[0].1),
            (Position::new(1, 0), before.tiles[1].1),
        ]
    );
    assert_eq!(grid.moving_tiles, vec![(Position::new(1, 0), Position::new(1, 3))]);
    grid.flip(Flip::CounterClock);
    assert_eq!(grid, before);
    grid.flip(Flip::Horizontal);
    assert_eq!(grid.tiles[1].0, Position::new(0, 1));
    grid.flip(Flip::Horizontal);
    assert_eq!(grid, before);
}

#[test]
fn sound_layout_needs_a_pitch_of_whole_steps() {
    assert!(Grid::new(10, Coordinates::new(0, 0), 4).has_sound_layout());
    assert!(Grid::new(6, Coordinates::new(0, 0), 4).has_sound_layout());
    assert!(!Grid::new(8, Coordinates::new(0, 0), 4).has_sound_layout());
    assert!(!Grid::new(10, Coordinates::new(0, 0), 1).has_sound_layout());
    assert!(!Grid::new(10, Coordinates::new(65000, 0), 60).has_sound_layout());
    assert!(Grid::new(10, Coordinates::new(0, 0), 5000).has_sound_layout());
    assert!(!Grid::new(10, Coordinates::new(0, 0), 6000).has_sound_layout());
}
