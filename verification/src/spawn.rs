//! The spawner and the game-over detector: which cells are free, how a new
//! tile comes onto the board, and when no move is left.

use vstd::prelude::*;

use crate::game::{tile_value, GameOverReason, Grid, GridView, Move, Position, StoreError, Tile};
use crate::store::{distinct, holds, lemma_put, lemma_total_push, put, total};
use crate::trusted::choose_cell;

verus! {

/// The value of a tile that has just come onto the board.
pub const SPAWN_VALUE: u32 = 2;

impl GridView {
    /// `p` is a cell of the board that holds no tile.
    pub open spec fn is_free(self, p: Position) -> bool {
        self.on_board(p) && !holds(self.tiles, p)
    }

    /// Every cell of the board holds a tile.
    pub open spec fn full(self) -> bool {
        forall|p: Position| !#[trigger] self.is_free(p)
    }

    /// The coordinates of every cell of the board are representable.
    pub open spec fn layout_fits(self) -> bool {
        forall|p: Position| #[trigger] self.on_board(p) ==> self.fits(p)
    }

    /// The grid after a tile of value `n` has been placed at rest on `p`.
    pub open spec fn inserted(self, p: Position, n: u32) -> GridView {
        self.with_tiles(self.tiles.push((p, Tile { coordinates: self.cell(p), n })))
    }

    /// The grid after a new tile has come to rest on `p`.
    pub open spec fn spawned(self, p: Position) -> GridView {
        self.inserted(p, SPAWN_VALUE)
    }

    /// The grid once its game has been declared over.
    pub open spec fn ended(self) -> GridView {
        GridView { over: true, ..self }
    }

    /// No direction changes the board.
    pub open spec fn stuck(self) -> bool {
        &&& self.transitions(Move::Left).len() == 0
        &&& self.transitions(Move::Right).len() == 0
        &&& self.transitions(Move::Up).len() == 0
        &&& self.transitions(Move::Down).len() == 0
    }

    /// The free cells among the first `rows` cells of column `x`, in
    /// ascending order of row.
    pub open spec fn free_in_column(self, x: u16, rows: int) -> Seq<Position>
        decreases rows,
    {
        if rows <= 0 {
            Seq::empty()
        } else {
            let rest = self.free_in_column(x, rows - 1);
            let p = Position { x, y: (rows - 1) as u16 };
            if holds(self.tiles, p) {
                rest
            } else {
                rest.push(p)
            }
        }
    }

    /// The free cells of the first `columns` columns, column by column.
    pub open spec fn free_in_columns(self, columns: int) -> Seq<Position>
        decreases columns,
    {
        if columns <= 0 {
            Seq::empty()
        } else {
            self.free_in_columns(columns - 1) + self.free_in_column(
                (columns - 1) as u16,
                self.size as int,
            )
        }
    }

    /// The free cells of the board, column by column and in each column in
    /// ascending order of row.
    pub open spec fn free_cells(self) -> Seq<Position> {
        self.free_in_columns(self.size as int)
    }
}

/// The free cells listed for a column are the free cells of that column.
pub proof fn lemma_free_in_column(v: GridView, x: u16, rows: int, p: Position)
    requires
        0 <= rows <= v.size,
    ensures
        v.free_in_column(x, rows).contains(p) <==> p.x == x && p.y < rows && !holds(v.tiles, p),
    decreases rows,
{
    if rows > 0 {
        lemma_free_in_column(v, x, rows - 1, p);
        let rest = v.free_in_column(x, rows - 1);
        let q = Position { x, y: (rows - 1) as u16 };
        let all = v.free_in_column(x, rows);
        if !holds(v.tiles, q) {
            if all.contains(p) {
                let i = choose|i: int| 0 <= i < all.len() && all[i] == p;
                if i < rest.len() {
                    assert(rest[i] == p);
                }
            }
            if rest.contains(p) {
                let i = choose|i: int| 0 <= i < rest.len() && rest[i] == p;
                assert(all[i] == p);
            }
            if p == q {
                assert(all[rest.len() as int] == p);
            }
        }
    }
}

/// The free cells listed for the first columns are the free cells there.
pub proof fn lemma_free_in_columns(v: GridView, columns: int, p: Position)
    requires
        0 <= columns <= v.size,
    ensures
        v.free_in_columns(columns).contains(p) <==> p.x < columns && p.y < v.size && !holds(
            v.tiles,
            p,
        ),
    decreases columns,
{
    if columns > 0 {
        lemma_free_in_columns(v, columns - 1, p);
        lemma_free_in_column(v, (columns - 1) as u16, v.size as int, p);
        let before = v.free_in_columns(columns - 1);
        let col = v.free_in_column((columns - 1) as u16, v.size as int);
        let all = before + col;
        if all.contains(p) {
            let i = choose|i: int| 0 <= i < all.len() && all[i] == p;
            if i < before.len() {
                assert(before[i] == p);
            } else {
                assert(col[i - before.len()] == p);
            }
        }
        if before.contains(p) {
            let i = choose|i: int| 0 <= i < before.len() && before[i] == p;
            assert(all[i] == p);
        }
        if col.contains(p) {
            let i = choose|i: int| 0 <= i < col.len() && col[i] == p;
            assert(all[before.len() + i] == p);
        }
    }
}

/// The list of free cells holds exactly the free cells, and is empty exactly
/// when the board is full.
pub proof fn lemma_free_cells(v: GridView)
    ensures
        forall|p: Position| #[trigger] v.free_cells().contains(p) <==> v.is_free(p),
        v.free_cells().len() == 0 <==> v.full(),
{
    assert forall|p: Position| #[trigger] v.free_cells().contains(p) <==> v.is_free(p) by {
        lemma_free_in_columns(v, v.size as int, p);
    }
    if v.free_cells().len() > 0 {
        let p = v.free_cells()[0];
        assert(v.free_cells().contains(p));
        assert(v.is_free(p));
    }
    if !v.full() {
        let p = choose|p: Position| #[trigger] v.is_free(p);
        assert(v.free_cells().contains(p));
    }
}

/// A tile placed at rest on a free cell adds its value to the sum, and keeps
/// a grid at rest sound where the value is a tile value.
pub proof fn lemma_inserted(v: GridView, p: Position, n: u32)
    requires
        !holds(v.tiles, p),
    ensures
        total(v.inserted(p, n).tiles) == total(v.tiles) + n,
        v.wf() && v.moving_tiles.len() == 0 && v.on_board(p) && tile_value(n) ==> v.inserted(
            p,
            n,
        ).wf(),
        v.placed() && v.on_board(p) && n > 0 ==> v.inserted(p, n).placed(),
{
    let tile = Tile { coordinates: v.cell(p), n };
    let w = v.inserted(p, n);
    lemma_total_push(v.tiles, (p, tile));
    assert(put(v.tiles, p, tile) == w.tiles);
    if distinct(v.tiles) {
        lemma_put(v.tiles, p, tile);
    }
    if v.placed() && v.on_board(p) && n > 0 {
        assert forall|i: int| 0 <= i < w.tiles.len() implies w.on_board((#[trigger] w.tiles[i]).0)
            && w.tiles[i].1.n > 0 by {
            if i < v.tiles.len() {
                assert(v.on_board(v.tiles[i].0));
                assert(v.tiles[i].1.n > 0);
            }
        }
        assert(w.placed());
    }
    if v.wf() && v.moving_tiles.len() == 0 && v.on_board(p) && tile_value(n) {
        assert forall|i: int| 0 <= i < w.tiles.len() implies w.on_board((#[trigger] w.tiles[i]).0)
            && tile_value(w.tiles[i].1.n) by {
            if i < v.tiles.len() {
                assert(v.on_board(v.tiles[i].0));
                assert(tile_value(v.tiles[i].1.n));
            }
        }
        assert forall|q: Position| #[trigger] w.at_rest(q) implies w.board()[q].coordinates
            == w.cell(q) by {
            if q != p {
                assert(v.at_rest(q));
            }
        }
        assert(w.wf());
    }
}

/// A new tile on a free cell keeps a grid at rest sound and adds its value
/// to the sum.
pub proof fn lemma_spawned(v: GridView, p: Position)
    requires
        v.is_free(p),
    ensures
        total(v.spawned(p).tiles) == total(v.tiles) + SPAWN_VALUE,
        v.wf() && v.moving_tiles.len() == 0 ==> v.spawned(p).wf(),
        v.placed() ==> v.spawned(p).placed(),
{
    assert(2u32 & 1u32 == 0) by (bit_vector);
    lemma_inserted(v, p, SPAWN_VALUE);
}

/// An empty grid with a sound layout meets the invariant.
pub proof fn lemma_empty(v: GridView)
    requires
        v.tiles.len() == 0,
        v.moving_tiles.len() == 0,
        v.geometry_ok(),
    ensures
        v.wf(),
{
}

impl Grid {
    /// The free cells of the board, column by column and in each column in
    /// ascending order of row.
    pub fn empty_cells(&self) -> (available: Vec<Position>)
        ensures
            available@ == self@.free_cells(),
    {
        let mut available: Vec<Position> = Vec::new();
        let mut x: u16 = 0;
        while x < self.size
            invariant
                x <= self.size,
                available@ == self@.free_in_columns(x as int),
            decreases self.size - x,
        {
            let ghost before = available@;
            let mut y: u16 = 0;
            while y < self.size
                invariant
                    y <= self.size,
                    x < self.size,
                    available@ == before + self@.free_in_column(x, y as int),
                decreases self.size - y,
            {
                if self.get_tile(Position::new(x, y)).is_none() {
                    available.push(Position::new(x, y));
                }
                proof {
                    let p = Position { x, y };
                    let rest = self@.free_in_column(x, y as int);
                    if !holds(self.tiles@, p) {
                        assert(before + rest.push(p) =~= (before + rest).push(p));
                    }
                }
                y += 1;
            }
            x += 1;
        }
        available
    }

    /// Every cell of the board holds a tile.
    pub fn is_full(&self) -> (full: bool)
        ensures
            full == self@.full(),
    {
        proof {
            lemma_free_cells(self@);
        }
        self.empty_cells().len() == 0
    }

    /// Places a new tile of value 2 at rest on the free cell `cell`.
    pub fn spawn_at(&mut self, cell: Position) -> (r: Result<(), StoreError>)
        requires
            old(self)@.fits(cell),
        ensures
            holds(old(self).tiles@, cell) ==> r == Err::<(), StoreError>(StoreError::Occupied)
                && final(self)@ == old(self)@,
            !holds(old(self).tiles@, cell) ==> r is Ok && final(self)@ == old(self)@.spawned(cell),
    {
        self.insert_tile(cell, SPAWN_VALUE)
    }

    /// Places a new tile of value 2 on a free cell picked at random.
    ///
    /// On a full board nothing changes and `BoardFull` is returned. Which of
    /// several free cells the tile comes onto is left open. The grid must be
    /// at rest.
    pub fn spawn_random_tile(&mut self) -> (r: Result<(), GameOverReason>)
        requires
            old(self)@.layout_fits(),
            old(self).moving_tiles@.len() == 0,
        ensures
            old(self)@.full() ==> r == Err::<(), GameOverReason>(GameOverReason::BoardFull)
                && final(self)@ == old(self)@,
            !old(self)@.full() ==> r is Ok && exists|p: Position|
                old(self)@.is_free(p) && final(self)@ == old(self)@.spawned(p),
            total(final(self).tiles@) == total(old(self).tiles@) + (if old(self)@.full() {
                0int
            } else {
                SPAWN_VALUE as int
            }),
            old(self)@.wf() ==> final(self)@.wf(),
            old(self)@.placed() ==> final(self)@.placed(),
    {
        let available = self.empty_cells();
        proof {
            lemma_free_cells(self@);
        }
        match choose_cell(&available) {
            None => Err(GameOverReason::BoardFull),
            Some(cell) => {
                proof {
                    assert(self@.is_free(cell));
                    assert(self@.on_board(cell));
                    lemma_spawned(self@, cell);
                }
                // the cell is free, so the tile is placed
                let _ = self.spawn_at(cell);
                Ok(())
            },
        }
    }

    /// Some direction changes the board.
    pub fn can_move(&mut self) -> (can: bool)
        requires
            old(self)@.placed(),
            total(old(self).tiles@) <= u32::MAX,
        ensures
            final(self)@ == old(self)@,
            can == !old(self)@.stuck(),
    {
        if self.check(Move::Left).len() > 0 {
            return true;
        }
        if self.check(Move::Right).len() > 0 {
            return true;
        }
        if self.check(Move::Up).len() > 0 {
            return true;
        }
        self.check(Move::Down).len() > 0
    }
}

} // verus!
