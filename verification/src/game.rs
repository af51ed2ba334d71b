//! The data model of the grid: positions, pixel coordinates, tiles and the
//! grid itself, with the coordinate mapper and the tile store operations.

use vstd::prelude::*;
use crate::store::{
    first_at, highest, holds, lemma_first_is_slot, lemma_highest, lemma_total_take, put, slot,
    tile_at, total, without,
};

verus! {

/// Horizontal gap, in character cells, between two tiles and around the board.
pub const MARGINX: u16 = 2;

/// Vertical gap, in character cells, between two tiles and around the board.
pub const MARGINY: u16 = 1;

/// Distance a moving tile covers per tick along the x axis.
pub const STEPX: u16 = 4;

/// Distance a moving tile covers per tick along the y axis.
pub const STEPY: u16 = 2;

/// A direction requested by the player.
#[derive(Debug, Clone, Copy, PartialEq, Eq, Structural)]
pub enum Move {
    Up,
    Down,
    Left,
    Right,
}

/// A turn of the whole board, by which the resolver brings every direction
/// to the one it is written for.
#[derive(Debug, Clone, Copy, PartialEq, Eq, Structural)]
pub enum Flip {
    Horizontal,
    Clock,
    CounterClock,
}

/// A grid cell index.
#[derive(Debug, Clone, Copy, PartialEq, Eq, Structural, Hash, Default)]
pub struct Position {
    pub x: u16,
    pub y: u16,
}

impl Position {
    pub fn new(x: u16, y: u16) -> (p: Self)
        ensures
            p.x == x,
            p.y == y,
    {
        Self { x, y }
    }
}

/// A location on the screen, in character cells.
#[derive(Debug, Clone, Copy, PartialEq, Eq, Structural, Hash, Default)]
pub struct Coordinates {
    pub x: u16,
    pub y: u16,
}

impl Coordinates {
    pub fn new(x: u16, y: u16) -> (c: Self)
        ensures
            c.x == x,
            c.y == y,
    {
        Self { x, y }
    }
}

/// A tile: its value and where it is drawn at the moment.
#[derive(Debug, Clone, Copy, PartialEq, Eq, Structural, Default)]
pub struct Tile {
    pub coordinates: Coordinates,
    pub n: u32,
}

impl Tile {
    pub fn new(coordinates: Coordinates, n: u32) -> (t: Self)
        ensures
            t.coordinates == coordinates,
            t.n == n,
    {
        Tile { coordinates, n }
    }

    /// Draws the tile somewhere else; its value stays.
    pub fn mv(&mut self, coordinates: Coordinates)
        ensures
            final(self).coordinates == coordinates,
            final(self).n == old(self).n,
    {
        self.coordinates = coordinates
    }

    /// Gives the tile another value; it stays where it is drawn.
    pub fn update_n(&mut self, n: u32)
        ensures
            final(self).n == n,
            final(self).coordinates == old(self).coordinates,
    {
        self.n = n;
    }
}

/// Why the tile store refuses a write.
#[derive(Debug, Clone, Copy, PartialEq, Eq, Structural)]
pub enum StoreError {
    /// The cell already holds a tile.
    Occupied,
}

/// Why a game has ended.
#[derive(Debug, Clone, Copy, PartialEq, Eq, Structural)]
pub enum GameOverReason {
    /// A new tile was due and every cell is occupied.
    BoardFull,
    /// Every cell is occupied and no direction changes the board.
    NoMovesLeft,
}

/// The board: the placed tiles, the moves in flight, and the layout.
///
/// `tiles` holds at most one entry per cell. While `moving_tiles` is not
/// empty the grid is animating: each pair is a tile on its way from the
/// first cell, under which the store still keeps it, to the second.
#[derive(Debug, Clone, PartialEq)]
pub struct Grid {
    pub tiles: Vec<(Position, Tile)>,
    pub moving_tiles: Vec<(Position, Position)>,
    pub size: u16,
    pub tile_width: u16,
    pub tile_height: u16,
    pub coordinates: Coordinates,
    pub over: bool,
}

/// The mathematical value of a [`Grid`].
pub struct GridView {
    pub tiles: Seq<(Position, Tile)>,
    pub moving_tiles: Seq<(Position, Position)>,
    pub size: u16,
    pub tile_width: u16,
    pub tile_height: u16,
    pub coordinates: Coordinates,
    pub over: bool,
}

impl View for Grid {
    type V = GridView;

    open spec fn view(&self) -> GridView {
        GridView {
            tiles: self.tiles@,
            moving_tiles: self.moving_tiles@,
            size: self.size,
            tile_width: self.tile_width,
            tile_height: self.tile_height,
            coordinates: self.coordinates,
            over: self.over,
        }
    }
}

/// A value a tile may carry: a power of two, 2 at least.
pub open spec fn tile_value(n: u32) -> bool {
    n >= 2 && n & ((n - 1) as u32) == 0
}

/// `i` is the first move in `moving` that starts on `pos`.
pub open spec fn first_from(moving: Seq<(Position, Position)>, pos: Position, i: int) -> bool {
    &&& 0 <= i < moving.len()
    &&& moving[i].0 == pos
    &&& forall|j: int| 0 <= j < i ==> (#[trigger] moving[j]).0 != pos
}

/// Some move in `moving` starts on `pos`.
pub open spec fn departs(moving: Seq<(Position, Position)>, pos: Position) -> bool {
    exists|i: int| 0 <= i < moving.len() && (#[trigger] moving[i]).0 == pos
}

/// The index of the first move that starts on `pos`, where there is one.
pub open spec fn departure(moving: Seq<(Position, Position)>, pos: Position) -> int {
    choose|i: int| first_from(moving, pos, i)
}

impl GridView {
    /// The x coordinate of column `col`.
    pub open spec fn column_x(self, col: int) -> int {
        self.coordinates.x + MARGINX + col * (MARGINX + self.tile_width)
    }

    /// The y coordinate of row `row`.
    pub open spec fn row_y(self, row: int) -> int {
        self.coordinates.y + MARGINY + row * (MARGINY + self.tile_height)
    }

    /// The coordinates of `pos` are representable.
    pub open spec fn fits(self, pos: Position) -> bool {
        &&& self.column_x(pos.x as int) <= u16::MAX
        &&& self.row_y(pos.y as int) <= u16::MAX
    }

    /// Where a tile at rest on `pos` is drawn.
    pub open spec fn cell(self, pos: Position) -> Coordinates {
        Coordinates {
            x: self.column_x(pos.x as int) as u16,
            y: self.row_y(pos.y as int) as u16,
        }
    }

    /// `pos` is a cell of this grid.
    pub open spec fn on_board(self, pos: Position) -> bool {
        pos.x < self.size && pos.y < self.size
    }

    /// Every placed tile and every move in flight lies on the board.
    pub open spec fn all_on_board(self) -> bool {
        &&& forall|i: int|
            0 <= i < self.tiles.len() ==> self.on_board((#[trigger] self.tiles[i]).0)
        &&& forall|i: int|
            0 <= i < self.moving_tiles.len() ==> self.on_board(
                (#[trigger] self.moving_tiles[i]).0,
            ) && self.on_board(self.moving_tiles[i].1)
    }

    /// The width of the frame drawn around the board.
    pub open spec fn frame_width(self) -> int {
        2 + self.tile_width * 4 + MARGINX * 4
    }

    /// This grid with another store.
    pub open spec fn with_tiles(self, tiles: Seq<(Position, Tile)>) -> GridView {
        GridView { tiles, ..self }
    }

    /// This grid with other moves in flight.
    pub open spec fn with_moving(self, moving_tiles: Seq<(Position, Position)>) -> GridView {
        GridView { moving_tiles, ..self }
    }
}

impl Grid {
    /// An empty grid of `size` by `size` cells whose tiles are `tile_size`
    /// wide and half as high, drawn from `coordinates` on.
    pub fn new(tile_size: u16, coordinates: Coordinates, size: u16) -> (g: Self)
        ensures
            g@ == (GridView {
                tiles: Seq::empty(),
                moving_tiles: Seq::empty(),
                size,
                tile_width: tile_size,
                tile_height: tile_size / 2,
                coordinates,
                over: false,
            }),
            g@.geometry_ok() ==> g@.wf(),
    {
        let tile_width: u16 = tile_size;
        let tile_height: u16 = tile_size / 2;

        let grid = Self {
            tiles: Vec::new(),
            moving_tiles: Vec::new(),
            size,
            tile_width,
            tile_height,
            coordinates,
            over: false,
        };
        proof {
            if grid@.geometry_ok() {
                crate::spawn::lemma_empty(grid@);
            }
        }
        grid
    }

    /// The width of the frame drawn around the board.
    pub fn width(&self) -> (w: u16)
        requires
            self@.frame_width() <= u16::MAX,
        ensures
            w == self@.frame_width(),
    {
        2 + self.tile_width * 4 + MARGINX * 4
    }

    /// The height of the frame drawn around the board: half its width.
    pub fn height(&self) -> (h: u16)
        requires
            self@.frame_width() <= u16::MAX,
        ensures
            h == self@.frame_width() / 2,
    {
        self.width() / 2
    }

    /// Where a tile at rest on `pos` is drawn.
    pub fn get_coordinates_at(&self, pos: Position) -> (c: Coordinates)
        requires
            self@.fits(pos),
        ensures
            c == self@.cell(pos),
            c.x == self.coordinates.x + MARGINX + pos.x * (MARGINX + self.tile_width),
            c.y == self.coordinates.y + MARGINY + pos.y * (MARGINY + self.tile_height),
    {
        proof {
            assert(pos.x * (MARGINX + self.tile_width) == pos.x * MARGINX + pos.x
                * self.tile_width) by (nonlinear_arith);
            assert(pos.y * (MARGINY + self.tile_height) == pos.y * MARGINY + pos.y
                * self.tile_height) by (nonlinear_arith);
            assert(0 <= pos.x * self.tile_width) by (nonlinear_arith);
            assert(0 <= pos.y * self.tile_height) by (nonlinear_arith);
        }
        Coordinates {
            x: self.coordinates.x + MARGINX + pos.x * MARGINX + pos.x * self.tile_width,
            y: self.coordinates.y + MARGINY + pos.y * MARGINY + pos.y * self.tile_height,
        }
    }

    /// The index of the entry on `pos`.
    fn find(&self, pos: Position) -> (r: Option<usize>)
        ensures
            match r {
                Some(i) => first_at(self.tiles@, pos, i as int) && slot(self.tiles@, pos) == i,
                None => !holds(self.tiles@, pos),
            },
    {
        let mut i: usize = 0;
        while i < self.tiles.len()
            invariant
                i <= self.tiles.len(),
                forall|j: int| 0 <= j < i ==> (#[trigger] self.tiles@[j]).0 != pos,
            decreases self.tiles.len() - i,
        {
            if self.tiles[i].0 == pos {
                proof {
                    lemma_first_is_slot(self.tiles@, pos, i as int);
                }
                return Some(i);
            }
            i += 1;
        }
        None
    }

    /// The tile on `pos`, if the cell is occupied.
    pub fn get_tile(&self, pos: Position) -> (r: Option<Tile>)
        ensures
            r == tile_at(self.tiles@, pos),
    {
        match self.find(pos) {
            Some(i) => Some(self.tiles[i].1),
            None => None,
        }
    }

    /// The tile on `pos`, to be changed in place.
    pub fn get_tile_mut(&mut self, pos: Position) -> (r: Option<&mut Tile>)
        ensures
            r is Some <==> holds(old(self).tiles@, pos),
            match r {
                Some(t) => {
                    &&& Some(*t) == tile_at(old(self).tiles@, pos)
                    &&& final(self)@ == old(self)@.with_tiles(
                        put(old(self).tiles@, pos, *final(t)),
                    )
                },
                None => final(self)@ == old(self)@,
            },
    {
        match self.find(pos) {
            Some(i) => Some(&mut self.tiles[i].1),
            None => None,
        }
    }

    /// Writes `tile` to `pos`, over whatever the cell holds.
    pub fn put_tile(&mut self, pos: Position, tile: Tile)
        ensures
            final(self)@ == old(self)@.with_tiles(put(old(self).tiles@, pos, tile)),
    {
        match self.find(pos) {
            Some(i) => {
                self.tiles[i] = (pos, tile);
            },
            None => {
                self.tiles.push((pos, tile));
            },
        }
    }

    /// Places a tile of value `n` at rest on the empty cell `pos`.
    ///
    /// An occupied cell is refused and the grid stays as it is. A grid at
    /// rest stays sound when the cell lies on the board and `n` is a power of
    /// two, 2 at least.
    pub fn insert_tile(&mut self, pos: Position, n: u32) -> (r: Result<(), StoreError>)
        requires
            old(self)@.fits(pos),
        ensures
            holds(old(self).tiles@, pos) ==> r == Err::<(), StoreError>(StoreError::Occupied)
                && final(self)@ == old(self)@,
            !holds(old(self).tiles@, pos) ==> r is Ok && final(self)@ == old(self)@.inserted(pos, n)
                && total(final(self).tiles@) == total(old(self).tiles@) + n,
            old(self)@.wf() && old(self).moving_tiles@.len() == 0 && old(self)@.on_board(pos)
                && tile_value(n) ==> final(self)@.wf(),
    {
        match self.find(pos) {
            Some(_) => Err(StoreError::Occupied),
            None => {
                proof {
                    crate::spawn::lemma_inserted(self@, pos, n);
                }
                let tile = Tile::new(self.get_coordinates_at(pos), n);
                self.tiles.push((pos, tile));
                Ok(())
            },
        }
    }

    /// Empties the cell `pos`.
    pub fn remove_tile(&mut self, pos: Position)
        ensures
            final(self)@ == old(self)@.with_tiles(without(old(self).tiles@, pos)),
    {
        match self.find(pos) {
            Some(i) => {
                self.tiles.remove(i);
            },
            None => {},
        }
    }

    /// Takes the move that starts on `pos` out of the moves in flight.
    pub fn remove_moving_tile(&mut self, pos: Position)
        requires
            departs(old(self).moving_tiles@, pos),
        ensures
            first_from(old(self).moving_tiles@, pos, departure(old(self).moving_tiles@, pos)),
            final(self)@ == old(self)@.with_moving(
                old(self).moving_tiles@.remove(departure(old(self).moving_tiles@, pos)),
            ),
    {
        let mut i: usize = 0;
        while i < self.moving_tiles.len()
            invariant
                i <= self.moving_tiles.len(),
                *self == *old(self),
                departs(self.moving_tiles@, pos),
                forall|j: int| 0 <= j < i ==> (#[trigger] self.moving_tiles@[j]).0 != pos,
            decreases self.moving_tiles.len() - i,
        {
            if self.moving_tiles[i].0 == pos {
                proof {
                    let k = departure(self.moving_tiles@, pos);
                    assert(first_from(self.moving_tiles@, pos, i as int));
                    assert(first_from(self.moving_tiles@, pos, k));
                    if k < i {
                        assert(self.moving_tiles@[k].0 != pos);
                    }
                    if i < k {
                        assert(self.moving_tiles@[i as int].0 != pos);
                    }
                }
                self.moving_tiles.remove(i);
                return ;
            }
            i += 1;
        }
        proof {
            let k = choose|k: int|
                0 <= k < self.moving_tiles@.len() && (#[trigger] self.moving_tiles@[k]).0 == pos;
            assert(self.moving_tiles@[k].0 != pos);
        }
    }

    /// The sum of the values of all tiles, where a `u32` holds it.
    pub fn total_value(&self) -> (sum: Option<u32>)
        ensures
            sum == (if total(self.tiles@) <= u32::MAX {
                Some(total(self.tiles@) as u32)
            } else {
                None
            }),
    {
        let mut sum: u32 = 0;
        let mut i: usize = 0;
        proof {
            assert(self.tiles@.take(0) =~= Seq::empty());
        }
        while i < self.tiles.len()
            invariant
                i <= self.tiles.len(),
                sum == total(self.tiles@.take(i as int)),
            decreases self.tiles.len() - i,
        {
            proof {
                lemma_total_take(self.tiles@, i as int);
                lemma_total_take(self.tiles@, i + 1);
            }
            match sum.checked_add(self.tiles[i].1.n) {
                Some(more) => {
                    sum = more;
                },
                None => {
                    return None;
                },
            }
            i += 1;
        }
        proof {
            assert(self.tiles@.take(i as int) =~= self.tiles@);
        }
        Some(sum)
    }

    /// The highest value on the board, or 0 for an empty board.
    pub fn max_value(&self) -> (max: u32)
        ensures
            max == highest(self.tiles@),
            forall|i: int| 0 <= i < self.tiles@.len() ==> (#[trigger] self.tiles@[i]).1.n <= max,
            self.tiles@.len() > 0 ==> exists|i: int|
                0 <= i < self.tiles@.len() && (#[trigger] self.tiles@[i]).1.n == max,
            self.tiles@.len() == 0 ==> max == 0,
    {
        proof {
            lemma_highest(self.tiles@);
        }
        let mut max: u32 = 0;
        let mut i: usize = 0;
        proof {
            assert(self.tiles@.take(0) =~= Seq::empty());
        }
        while i < self.tiles.len()
            invariant
                i <= self.tiles.len(),
                max == highest(self.tiles@.take(i as int)),
            decreases self.tiles.len() - i,
        {
            proof {
                assert(self.tiles@.take(i + 1).drop_last() =~= self.tiles@.take(i as int));
            }
            if self.tiles[i].1.n >= max {
                max = self.tiles[i].1.n;
            }
            i += 1;
        }
        proof {
            assert(self.tiles@.take(i as int) =~= self.tiles@);
        }
        max
    }
}

} // verus!
