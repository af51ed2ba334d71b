use slide2048::game::{Coordinates, Grid, Position, MARGINX, MARGINY};

#[test]
fn game_get_tile_position() {
    let tile_size = 10;
    let grid = Grid::new(tile_size, Coordinates::new(0, 0), 4);
    assert!(grid.get_coordinates_at(Position::new(0, 0)) == Coordinates::new(MARGINX, MARGINY));
    assert!(
        grid.get_coordinates_at(Position::new(1, 1))
            == Coordinates::new(2 * MARGINX + tile_size, 2 * MARGINY + tile_size / 2)
    );
    assert!(
        grid.get_coordinates_at(Position::new(0, 2))
            == Coordinates::new(MARGINX, 3 * MARGINY + (tile_size / 2 * 2))
    );
}

#[test]
fn game12_get_tile_position() {
    let tile_size = 10;
    let grid = Grid::new(tile_size, Coordinates::new(0, 0), 4);
    assert!(grid.get_coordinates_at(Position::new(0, 0)) == Coordinates::new(MARGINX, MARGINY));
    assert!(
        grid.get_coordinates_at(Position::new(1, 1))
            == Coordinates::new(2 * MARGINX + tile_size, 2 * MARGINY + tile_size / 2)
    );
    assert!(
        grid.get_coordinates_at(Position::new(0, 2))
            == Coordinates::new(MARGINX, 3 * MARGINY + (tile_size / 2 * 2))
    );
}
