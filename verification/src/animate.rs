//! The animation scheduler: how a grid with moves in flight advances by one
//! tick, and the invariant that makes every tile land where the resolver
//! sent it.

use vstd::prelude::*;
use crate::flight::{lemma_cell_gap, lemma_take_off};
use crate::game::{
    departs, departure, first_from, tile_value, Coordinates, GameOverReason, Grid, GridView, Move,
    Position, Tile, MARGINX, MARGINY, STEPX, STEPY,
};
use crate::spawn::SPAWN_VALUE;
use crate::store::{
    distinct, holds, lemma_put, lemma_put_entries, lemma_slot_of_held, lemma_tile_at_map,
    lemma_total_two_cells, lemma_value_at, lemma_without, lemma_without_entries, put, tile_at,
    tile_map, total, without,
};

verus! {

/// The distance between two coordinates on one axis.
pub open spec fn gap(a: int, b: int) -> int {
    if a >= b {
        a - b
    } else {
        b - a
    }
}

/// The number of ticks a tile drawn at `from` needs to reach `to`.
pub open spec fn ticks_between(from: Coordinates, to: Coordinates) -> int {
    gap(from.x as int, to.x as int) / (STEPX as int) + gap(from.y as int, to.y as int) / (
    STEPY as int)
}

/// `from` lies a whole number of steps away from `to` on both axes.
pub open spec fn in_step(from: Coordinates, to: Coordinates) -> bool {
    &&& gap(from.x as int, to.x as int) % (STEPX as int) == 0
    &&& gap(from.y as int, to.y as int) % (STEPY as int) == 0
}

/// Where a tile drawn at `from` is drawn one tick later on its way to `to`:
/// one step along the x axis while the columns differ, one step along the y
/// axis after that.
pub open spec fn stepped(from: Coordinates, to: Coordinates) -> Coordinates {
    if to.x > from.x {
        Coordinates { x: (from.x + STEPX) as u16, y: from.y }
    } else if to.x < from.x {
        Coordinates { x: (from.x - STEPX) as u16, y: from.y }
    } else if to.y > from.y {
        Coordinates { x: from.x, y: (from.y + STEPY) as u16 }
    } else if to.y < from.y {
        Coordinates { x: from.x, y: (from.y - STEPY) as u16 }
    } else {
        from
    }
}

/// A step brings a tile one tick closer, keeps it in step, and lands it
/// exactly when one tick was left.
pub proof fn lemma_stepped(from: Coordinates, to: Coordinates)
    requires
        in_step(from, to),
        from != to,
    ensures
        in_step(stepped(from, to), to),
        ticks_between(stepped(from, to), to) == ticks_between(from, to) - 1,
        ticks_between(from, to) >= 1,
        stepped(from, to) == to <==> ticks_between(from, to) == 1,
        to.x > from.x ==> from.x + STEPX <= to.x,
        to.x < from.x ==> from.x - STEPX >= to.x,
        to.x == from.x && to.y > from.y ==> from.y + STEPY <= to.y,
        to.x == from.x && to.y < from.y ==> from.y - STEPY >= to.y,
{
}

impl GridView {
    /// The store read as a map from occupied cell to tile.
    pub open spec fn board(self) -> Map<Position, Tile> {
        tile_map(self.tiles)
    }

    /// The number of ticks the `i`-th move in flight still needs.
    pub open spec fn lag(self, i: int) -> int {
        ticks_between(
            self.board()[self.moving_tiles[i].0].coordinates,
            self.cell(self.moving_tiles[i].1),
        )
    }

    /// The number of ticks the `i`-th move needed when the current tick
    /// began, given that the first `b` moves have been advanced in it.
    pub open spec fn due(self, i: int, b: int) -> int {
        self.lag(i) + if i < b {
            1int
        } else {
            0int
        }
    }

    /// The cell holds a tile that is not in flight.
    pub open spec fn at_rest(self, p: Position) -> bool {
        self.board().dom().contains(p) && !departs(self.moving_tiles, p)
    }

    /// The layout lets the animation work: the board has two cells a side
    /// at least, the distance from one cell to the next is a whole number of
    /// steps on both axes, and the coordinates of every cell are
    /// representable.
    pub open spec fn geometry_ok(self) -> bool {
        &&& self.size >= 2
        &&& (MARGINX + self.tile_width) % (STEPX as int) == 0
        &&& (MARGINY + self.tile_height) % (STEPY as int) == 0
        &&& self.fits(Position { x: (self.size - 1) as u16, y: (self.size - 1) as u16 })
    }

    /// The `i`-th move in flight is sound: its tile is in the store under
    /// the cell it left, it goes to another cell of the board, and the tile
    /// is drawn a whole number of steps, one at least, away from there.
    pub open spec fn flight_ok(self, i: int) -> bool {
        let from = self.moving_tiles[i].0;
        let to = self.moving_tiles[i].1;
        &&& self.board().dom().contains(from)
        &&& self.on_board(to)
        &&& from != to
        &&& in_step(self.board()[from].coordinates, self.cell(to))
        &&& self.lag(i) >= 1
    }

    /// No tile is asked to move twice.
    pub open spec fn sources_distinct(self) -> bool {
        forall|i: int, j: int|
            0 <= i < j < self.moving_tiles.len() ==> (#[trigger] self.moving_tiles[i]).0 != (
            #[trigger] self.moving_tiles[j]).0
    }

    /// Every tile at rest is drawn on its cell.
    pub open spec fn resting_at_home(self) -> bool {
        forall|p: Position| #[trigger]
            self.at_rest(p) ==> self.board()[p].coordinates == self.cell(p)
    }

    /// A tile in flight whose target is still held by another tile in
    /// flight comes after that tile in the list and lands no sooner.
    pub open spec fn leaves_first(self, b: int) -> bool {
        forall|i: int, j: int|
            0 <= i < self.moving_tiles.len() && 0 <= j < self.moving_tiles.len() && i != j && (
            #[trigger] self.moving_tiles[i]).1 == (#[trigger] self.moving_tiles[j]).0 ==> j < i
                && self.due(j, b) <= self.due(i, b)
    }

    /// Two tiles in flight to one cell carry the same value, the one that
    /// comes first in the list lands first, and no tile is at rest there.
    pub open spec fn pairs_ok(self, b: int) -> bool {
        forall|i: int, j: int|
            0 <= i < j < self.moving_tiles.len() && (#[trigger] self.moving_tiles[i]).1 == (
            #[trigger] self.moving_tiles[j]).1 ==> self.due(i, b) < self.due(j, b)
                && self.board()[self.moving_tiles[i].0].n == self.board()[self.moving_tiles[j].0].n
                && !self.at_rest(self.moving_tiles[i].1)
    }

    /// No three tiles are in flight to one cell.
    pub open spec fn no_third(self) -> bool {
        forall|i: int, j: int, k: int|
            0 <= i < j < k < self.moving_tiles.len() ==> !((#[trigger] self.moving_tiles[i]).1 == (
            #[trigger] self.moving_tiles[j]).1 && self.moving_tiles[j].1 == (
            #[trigger] self.moving_tiles[k]).1)
    }

    /// A tile in flight to a cell where a tile is at rest carries that
    /// tile's value.
    pub open spec fn merges_equal(self) -> bool {
        forall|i: int|
            0 <= i < self.moving_tiles.len() && self.at_rest((#[trigger] self.moving_tiles[i]).1)
                ==> self.board()[self.moving_tiles[i].1].n == self.board()[self.moving_tiles[i].0].n
    }

    /// Every tile carries a power of two, 2 at least.
    pub open spec fn values_ok(self) -> bool {
        forall|i: int| 0 <= i < self.tiles.len() ==> tile_value((#[trigger] self.tiles[i]).1.n)
    }

    /// The invariant of the grid in the middle of a tick in which the first
    /// `b` moves in flight have been advanced.
    pub open spec fn inv(self, b: int) -> bool {
        &&& 0 <= b <= self.moving_tiles.len()
        &&& self.geometry_ok()
        &&& distinct(self.tiles)
        &&& self.all_on_board()
        &&& self.values_ok()
        &&& self.sources_distinct()
        &&& forall|i: int| 0 <= i < self.moving_tiles.len() ==> #[trigger] self.flight_ok(i)
        &&& self.resting_at_home()
        &&& self.leaves_first(b)
        &&& self.pairs_ok(b)
        &&& self.no_third()
        &&& self.merges_equal()
    }

    /// The invariant of the grid between two ticks.
    ///
    /// It holds of an empty grid with a sound layout, and every operation of
    /// the engine keeps it. With no move in flight it says that no cell
    /// holds two tiles, that every tile lies on the board, carries a power of
    /// two and is drawn on its cell.
    pub open spec fn wf(self) -> bool {
        self.inv(0)
    }

    /// The tile that is in the store under `from` after one more tick on its
    /// way to `to`.
    pub open spec fn moved_tile(self, from: Position, to: Position) -> Tile {
        let tile = self.board()[from];
        Tile { coordinates: stepped(tile.coordinates, self.cell(to)), n: tile.n }
    }

    /// The tile on `from` lands on `to` in this tick.
    pub open spec fn lands(self, from: Position, to: Position) -> bool {
        self.moved_tile(from, to).coordinates == self.cell(to)
    }

    /// The tile found on `to` once the tile from `from` has landed there:
    /// twice the value that was there, or the value that arrived on an empty
    /// cell.
    pub open spec fn landed_tile(self, from: Position, to: Position) -> Tile {
        match tile_at(self.tiles, to) {
            Some(there) => Tile { coordinates: self.cell(to), n: (2 * there.n) as u32 },
            None => Tile { coordinates: self.cell(to), n: self.board()[from].n },
        }
    }

    /// The grid after the tile in flight from `from` to `to` has been
    /// advanced by one tick.
    ///
    /// A tile that does not land yet is drawn one step further. A tile that
    /// lands is written to `to`, its old cell is emptied, and its move is
    /// taken out of the moves in flight.
    pub open spec fn advance(self, from: Position, to: Position) -> GridView {
        if self.lands(from, to) {
            GridView {
                tiles: without(put(self.tiles, to, self.landed_tile(from, to)), from),
                moving_tiles: self.moving_tiles.remove(departure(self.moving_tiles, from)),
                ..self
            }
        } else {
            GridView { tiles: put(self.tiles, from, self.moved_tile(from, to)), ..self }
        }
    }

    /// The grid after each of `moves` has been advanced by one tick, in
    /// order.
    pub open spec fn advance_each(self, moves: Seq<(Position, Position)>) -> GridView
        decreases moves.len(),
    {
        if moves.len() == 0 {
            self
        } else {
            self.advance_each(moves.drop_last()).advance(moves.last().0, moves.last().1)
        }
    }
}

/// In a list of moves with different sources, a move is found under its source.
pub proof fn lemma_departure(moving: Seq<(Position, Position)>, b: int)
    requires
        0 <= b < moving.len(),
        forall|i: int, j: int|
            0 <= i < j < moving.len() ==> (#[trigger] moving[i]).0 != (#[trigger] moving[j]).0,
    ensures
        departs(moving, moving[b].0),
        departure(moving, moving[b].0) == b,
        forall|p: Position|
            departs(moving.remove(b), p) <==> (departs(moving, p) && p != moving[b].0),
{
    let from = moving[b].0;
    assert(first_from(moving, from, b));
    let k = departure(moving, from);
    assert(first_from(moving, from, k));
    let rest = moving.remove(b);
    assert forall|p: Position| departs(rest, p) <==> (departs(moving, p) && p != from) by {
        if departs(rest, p) {
            let i = choose|i: int| 0 <= i < rest.len() && (#[trigger] rest[i]).0 == p;
            let i0 = if i < b { i } else { i + 1 };
            assert(rest[i] == moving[i0]);
        }
        if departs(moving, p) && p != from {
            let i = choose|i: int| 0 <= i < moving.len() && (#[trigger] moving[i]).0 == p;
            let i1 = if i < b { i } else { i - 1 };
            assert(rest[i1] == moving[i]);
        }
    }
}

/// Doubling a tile value gives a tile value.
pub proof fn lemma_double_value(n: u32)
    requires
        tile_value(n),
        2 * n <= u32::MAX,
    ensures
        tile_value((2 * n) as u32),
{
    let m: u32 = (n - 1) as u32;
    let d: u32 = (2 * n) as u32;
    let e: u32 = (d - 1) as u32;
    assert(n >= 2 && n <= 0x7fff_ffffu32 && n & m == 0 && m == n - 1u32 && d == n << 1u32 && e == d
        - 1u32 ==> d & e == 0) by (bit_vector);
    assert(n << 1u32 == 2 * n) by (bit_vector)
        requires
            n <= 0x7fff_ffffu32,
    ;
}

/// What is known of a store entry holds of the tile on every occupied cell.
pub proof fn lemma_cells_on_board(v: GridView)
    requires
        distinct(v.tiles),
        v.all_on_board(),
        v.values_ok(),
    ensures
        forall|p: Position| #[trigger]
            v.board().dom().contains(p) ==> v.on_board(p) && tile_value(v.board()[p].n) && holds(
                v.tiles,
                p,
            ),
{
    assert forall|p: Position| #[trigger] v.board().dom().contains(p) implies v.on_board(p)
        && tile_value(v.board()[p].n) && holds(v.tiles, p) by {
        lemma_slot_of_held(v.tiles, p);
        let i = crate::store::slot(v.tiles, p);
        assert(v.on_board(v.tiles[i].0));
        assert(tile_value(v.tiles[i].1.n));
    }
}

/// A tick that does not land the tile of move `b` keeps the invariant and
/// the sum of the values.
pub proof fn lemma_approach(v: GridView, b: int)
    requires
        v.inv(b),
        0 <= b < v.moving_tiles.len(),
        !v.lands(v.moving_tiles[b].0, v.moving_tiles[b].1),
    ensures
        v.advance(v.moving_tiles[b].0, v.moving_tiles[b].1).inv(b + 1),
        total(v.advance(v.moving_tiles[b].0, v.moving_tiles[b].1).tiles) == total(v.tiles),
        v.advance(v.moving_tiles[b].0, v.moving_tiles[b].1).moving_tiles == v.moving_tiles,
        forall|i: int|
            0 <= i < v.moving_tiles.len() ==> #[trigger] v.advance(
                v.moving_tiles[b].0,
                v.moving_tiles[b].1,
            ).lag(i) == v.lag(i) - if i == b {
                1int
            } else {
                0int
            },
{
    let from = v.moving_tiles[b].0;
    let to = v.moving_tiles[b].1;
    let m = v.moving_tiles;
    let w = v.advance(from, to);
    let tile = v.board()[from];
    let moved = v.moved_tile(from, to);
    assert(v.flight_ok(b));
    lemma_stepped(tile.coordinates, v.cell(to));
    lemma_put(v.tiles, from, moved);
    lemma_put_entries(v.tiles, from, moved);
    lemma_value_at(v.tiles, from);
    lemma_cells_on_board(v);
    assert(w.board() == v.board().insert(from, moved));
    assert(w.board().dom() =~= v.board().dom());
    assert forall|i: int| 0 <= i < w.tiles.len() implies w.on_board((#[trigger] w.tiles[i]).0)
        && tile_value(w.tiles[i].1.n) by {
        if w.tiles[i] != (from, moved) {
            let j = choose|j: int| 0 <= j < v.tiles.len() && v.tiles[j] == w.tiles[i];
            assert(v.on_board(v.tiles[j].0));
            assert(tile_value(v.tiles[j].1.n));
        }
    }
    assert forall|i: int| 0 <= i < m.len() implies w.due(i, b + 1) == v.due(i, b) && #[trigger] w.lag(
        i,
    ) >= 1 by {
        assert(v.flight_ok(i));
        if i != b {
            if i < b {
                assert(m[i].0 != m[b].0);
            } else {
                assert(m[b].0 != m[i].0);
            }
        }
    }
    assert forall|p: Position| w.at_rest(p) == v.at_rest(p) by {}
    assert forall|i: int| 0 <= i < w.moving_tiles.len() implies #[trigger] w.flight_ok(i) by {
        assert(v.flight_ok(i));
        assert(w.due(i, b + 1) == v.due(i, b));
        if i != b {
            if i < b {
                assert(m[i].0 != m[b].0);
            } else {
                assert(m[b].0 != m[i].0);
            }
        }
    }
    assert(w.resting_at_home()) by {
        assert forall|p: Position| #[trigger] w.at_rest(p) implies w.board()[p].coordinates
            == w.cell(p) by {
            assert(v.at_rest(p));
            assert(m[b].0 == from);
            assert(p != from);
        }
    }
    assert(w.leaves_first(b + 1)) by {
        assert forall|i: int, j: int|
            0 <= i < m.len() && 0 <= j < m.len() && i != j && (#[trigger] w.moving_tiles[i]).1 == (
            #[trigger] w.moving_tiles[j]).0 implies j < i && w.due(j, b + 1) <= w.due(i, b + 1) by {
            assert(w.due(i, b + 1) == v.due(i, b));
            assert(w.due(j, b + 1) == v.due(j, b));
        }
    }
    assert(w.pairs_ok(b + 1)) by {
        assert forall|i: int, j: int|
            0 <= i < j < m.len() && (#[trigger] w.moving_tiles[i]).1 == (
            #[trigger] w.moving_tiles[j]).1 implies w.due(i, b + 1) < w.due(j, b + 1)
            && w.board()[m[i].0].n == w.board()[m[j].0].n && !w.at_rest(m[i].1) by {
            assert(w.due(i, b + 1) == v.due(i, b));
            assert(w.due(j, b + 1) == v.due(j, b));
            assert(w.at_rest(m[i].1) == v.at_rest(m[i].1));
        }
    }
    assert(w.merges_equal()) by {
        assert forall|i: int|
            0 <= i < m.len() && w.at_rest(
                (#[trigger] w.moving_tiles[i]).1,
            ) implies w.board()[m[i].1].n
            == w.board()[m[i].0].n by {
            assert(w.at_rest(m[i].1) == v.at_rest(m[i].1));
        }
    }
}

/// The index in `moving` of the move that is `i`-th once move `b` is taken out.
pub open spec fn before_removal(i: int, b: int) -> int {
    if i < b {
        i
    } else {
        i + 1
    }
}

/// A tick that lands the tile of move `b` keeps the invariant and the sum of
/// the values: the tile either comes to rest on an empty cell, or joins a
/// tile at rest that carries the same value.
pub proof fn lemma_arrive(v: GridView, b: int)
    requires
        v.inv(b),
        0 <= b < v.moving_tiles.len(),
        v.lands(v.moving_tiles[b].0, v.moving_tiles[b].1),
        total(v.tiles) <= u32::MAX,
    ensures
        v.advance(v.moving_tiles[b].0, v.moving_tiles[b].1).inv(b),
        total(v.advance(v.moving_tiles[b].0, v.moving_tiles[b].1).tiles) == total(v.tiles),
        v.advance(v.moving_tiles[b].0, v.moving_tiles[b].1).moving_tiles == v.moving_tiles.remove(
            b,
        ),
        !departs(v.moving_tiles, v.moving_tiles[b].1),
        v.on_board(v.moving_tiles[b].0),
        !holds(v.advance(v.moving_tiles[b].0, v.moving_tiles[b].1).tiles, v.moving_tiles[b].0),
        forall|i: int|
            0 <= i < v.moving_tiles.len() - 1 ==> #[trigger] v.advance(
                v.moving_tiles[b].0,
                v.moving_tiles[b].1,
            ).lag(i) == v.lag(before_removal(i, b)),
        v.board().dom().contains(v.moving_tiles[b].1) ==> v.board()[v.moving_tiles[b].1].n
            == v.board()[v.moving_tiles[b].0].n,
        v.landed_tile(v.moving_tiles[b].0, v.moving_tiles[b].1).n == (if v.board().dom().contains(
            v.moving_tiles[b].1,
        ) {
            2 * v.board()[v.moving_tiles[b].0].n
        } else {
            v.board()[v.moving_tiles[b].0].n as int
        }),
{
    let from = v.moving_tiles[b].0;
    let to = v.moving_tiles[b].1;
    let m = v.moving_tiles;
    let w = v.advance(from, to);
    let tile = v.board()[from];
    let landed = v.landed_tile(from, to);
    let n = tile.n;
    assert(v.flight_ok(b));
    lemma_stepped(tile.coordinates, v.cell(to));
    assert(v.lag(b) == 1);
    lemma_departure(m, b);
    lemma_cells_on_board(v);
    lemma_tile_at_map(v.tiles, to);
    // no tile in flight still holds the target cell
    if departs(m, to) {
        let j = choose|j: int| 0 <= j < m.len() && (#[trigger] m[j]).0 == to;
        assert(v.flight_ok(j));
        assert(m[b].1 == m[j].0);
        assert(j < b && v.due(j, b) <= v.due(b, b));
    }
    assert(!departs(m, to));
    if v.board().dom().contains(to) {
        assert(v.at_rest(to));
        assert(v.at_rest(m[b].1));
        lemma_total_two_cells(v.tiles, from, to);
        lemma_double_value(n);
    }
    let tiles1 = put(v.tiles, to, landed);
    lemma_put(v.tiles, to, landed);
    lemma_put_entries(v.tiles, to, landed);
    lemma_without(tiles1, from);
    lemma_without_entries(tiles1, from);
    lemma_value_at(v.tiles, to);
    lemma_value_at(tiles1, from);
    let m1 = m.remove(b);
    assert(w.moving_tiles == m1);
    assert(w.tiles == without(tiles1, from));
    assert(w.board() == v.board().insert(to, landed).remove(from));
    assert(!holds(w.tiles, from)) by {
        assert(!w.board().dom().contains(from));
    }
    assert(tile_value(landed.n));
    assert(v.on_board(from));
    assert forall|i: int| 0 <= i < w.tiles.len() implies w.on_board((#[trigger] w.tiles[i]).0)
        && tile_value(w.tiles[i].1.n) by {
        assert(tiles1.contains(w.tiles[i]));
        let j = choose|j: int| 0 <= j < tiles1.len() && tiles1[j] == w.tiles[i];
        if tiles1[j] != (to, landed) {
            assert(v.tiles.contains(tiles1[j]));
            let k = choose|k: int| 0 <= k < v.tiles.len() && v.tiles[k] == tiles1[j];
            assert(v.on_board(v.tiles[k].0));
            assert(tile_value(v.tiles[k].1.n));
        }
    }
    // every move that stays in flight is as it was
    assert forall|i: int| 0 <= i < m1.len() implies {
        let i0 = before_removal(i, b);
        &&& #[trigger] m1[i] == m[i0]
        &&& i0 != b
        &&& 0 <= i0 < m.len()
        &&& m[i0].0 != from
        &&& m[i0].0 != to
        &&& w.board().dom().contains(m[i0].0)
        &&& w.board()[m[i0].0] == v.board()[m[i0].0]
        &&& w.lag(i) == v.lag(i0)
        &&& w.due(i, b) == v.due(i0, b)
        &&& v.flight_ok(i0)
    } by {
        let i0 = before_removal(i, b);
        assert(v.flight_ok(i0));
        if i0 < b {
            assert(m[i0].0 != m[b].0);
        } else {
            assert(m[b].0 != m[i0].0);
        }
        assert(departs(m, m[i0].0));
    }
    assert forall|p: Position| w.at_rest(p) <==> (p != from && (p == to || v.at_rest(p))) by {}
    assert(w.all_on_board()) by {
        assert forall|i: int| 0 <= i < m1.len() implies w.on_board((#[trigger] w.moving_tiles[i]).0)
            && w.on_board(w.moving_tiles[i].1) by {
            let i0 = before_removal(i, b);
            assert(m1[i] == m[i0]);
            assert(v.on_board(m[i0].0));
        }
    }
    assert(w.sources_distinct()) by {
        assert forall|i: int, j: int| 0 <= i < j < m1.len() implies (
        #[trigger] w.moving_tiles[i]).0 != (#[trigger] w.moving_tiles[j]).0 by {
            let i0 = before_removal(i, b);
            let j0 = before_removal(j, b);
            assert(m1[i] == m[i0] && m1[j] == m[j0]);
            assert(m[i0].0 != m[j0].0);
        }
    }
    assert forall|i: int| 0 <= i < w.moving_tiles.len() implies #[trigger] w.flight_ok(i) by {
        let i0 = before_removal(i, b);
        assert(m1[i] == m[i0]);
        assert(v.flight_ok(i0));
    }
    assert(w.resting_at_home()) by {
        assert forall|p: Position| #[trigger] w.at_rest(p) implies w.board()[p].coordinates
            == w.cell(p) by {
            if p != to {
                assert(v.at_rest(p));
            }
        }
    }
    assert(w.leaves_first(b)) by {
        assert forall|i: int, j: int|
            0 <= i < m1.len() && 0 <= j < m1.len() && i != j && (#[trigger] w.moving_tiles[i]).1 == (
            #[trigger] w.moving_tiles[j]).0 implies j < i && w.due(j, b) <= w.due(i, b) by {
            let i0 = before_removal(i, b);
            let j0 = before_removal(j, b);
            assert(m1[i] == m[i0] && m1[j] == m[j0]);
            assert(m[i0].1 == m[j0].0);
            assert(j0 < i0 && v.due(j0, b) <= v.due(i0, b));
        }
    }
    assert(w.no_third()) by {
        assert forall|i: int, j: int, k: int| 0 <= i < j < k < m1.len() implies !((
        #[trigger] w.moving_tiles[i]).1 == (#[trigger] w.moving_tiles[j]).1 && w.moving_tiles[j].1
            == (#[trigger] w.moving_tiles[k]).1) by {
            let i0 = before_removal(i, b);
            let j0 = before_removal(j, b);
            let k0 = before_removal(k, b);
            assert(m1[i] == m[i0] && m1[j] == m[j0] && m1[k] == m[k0]);
            assert(!(m[i0].1 == m[j0].1 && m[j0].1 == m[k0].1));
        }
    }
    assert(w.pairs_ok(b)) by {
        assert forall|i: int, j: int|
            0 <= i < j < m1.len() && (#[trigger] w.moving_tiles[i]).1 == (
            #[trigger] w.moving_tiles[j]).1 implies w.due(i, b) < w.due(j, b)
            && w.board()[w.moving_tiles[i].0].n == w.board()[w.moving_tiles[j].0].n && !w.at_rest(
            w.moving_tiles[i].1,
        ) by {
            let i0 = before_removal(i, b);
            let j0 = before_removal(j, b);
            assert(m1[i] == m[i0] && m1[j] == m[j0]);
            assert(m[i0].1 == m[j0].1);
            assert(v.due(i0, b) < v.due(j0, b) && !v.at_rest(m[i0].1));
            let d = m[i0].1;
            if d == to {
                // three moves to one cell
                if b < i0 {
                    assert(!(m[b].1 == m[i0].1 && m[i0].1 == m[j0].1));
                } else if b < j0 {
                    assert(!(m[i0].1 == m[b].1 && m[b].1 == m[j0].1));
                } else {
                    assert(!(m[i0].1 == m[j0].1 && m[j0].1 == m[b].1));
                }
            }
        }
    }
    assert(w.merges_equal()) by {
        assert forall|i: int|
            0 <= i < m1.len() && w.at_rest(
                (#[trigger] w.moving_tiles[i]).1,
            ) implies w.board()[w.moving_tiles[i].1].n
            == w.board()[w.moving_tiles[i].0].n by {
            let i0 = before_removal(i, b);
            assert(m1[i] == m[i0]);
            let d = m[i0].1;
            if d == to {
                if i0 < b {
                    assert(m[i0].1 == m[b].1);
                    assert(v.due(i0, b) < v.due(b, b));
                    assert(v.flight_ok(i0));
                } else {
                    assert(m[b].1 == m[i0].1);
                    assert(!v.at_rest(m[b].1));
                    assert(v.board()[m[b].0].n == v.board()[m[i0].0].n);
                }
            } else {
                assert(v.at_rest(d));
                assert(v.at_rest(m[i0].1));
            }
        }
    }
}

/// When every move in flight has been advanced, the tick is over.
pub proof fn lemma_tick_done(v: GridView)
    requires
        v.inv(v.moving_tiles.len() as int),
    ensures
        v.inv(0),
{
    let b = v.moving_tiles.len() as int;
    assert forall|i: int| 0 <= i < b implies v.due(i, 0) + 1 == v.due(i, b) by {}
    assert(v.leaves_first(0)) by {
        assert forall|i: int, j: int|
            0 <= i < b && 0 <= j < b && i != j && (#[trigger] v.moving_tiles[i]).1 == (
            #[trigger] v.moving_tiles[j]).0 implies j < i && v.due(j, 0) <= v.due(i, 0) by {
            assert(v.due(j, b) <= v.due(i, b));
        }
    }
    assert(v.pairs_ok(0)) by {
        assert forall|i: int, j: int|
            0 <= i < j < b && (#[trigger] v.moving_tiles[i]).1 == (
            #[trigger] v.moving_tiles[j]).1 implies v.due(i, 0) < v.due(j, 0)
            && v.board()[v.moving_tiles[i].0].n == v.board()[v.moving_tiles[j].0].n && !v.at_rest(
            v.moving_tiles[i].1,
        ) by {
            assert(v.due(i, b) < v.due(j, b));
        }
    }
}

impl GridView {
    /// A new tile comes onto the board at the end of this tick: moves are in
    /// flight, and the last of them lands.
    pub open spec fn spawns_now(self) -> bool {
        &&& !self.over
        &&& self.moving_tiles.len() > 0
        &&& self.advance_each(self.moving_tiles).moving_tiles.len() == 0
    }

    /// `after` and `r` are what is left of this grid, on which a new tile has
    /// just come to rest: where the board is now full and no direction
    /// changes it, the game ends with `NoMovesLeft`; otherwise the grid stays
    /// as it is.
    pub open spec fn settled(self, after: GridView, r: Result<(), GameOverReason>) -> bool {
        if self.full() && self.stuck() {
            after == self.ended() && r == Err::<(), GameOverReason>(GameOverReason::NoMovesLeft)
        } else {
            after == self && r is Ok
        }
    }

    /// `after` and `r` are a grid and a result that one tick with the command
    /// `mv` may leave behind.
    ///
    /// - After the end of the game nothing changes.
    /// - While moves are in flight the command is dropped and every move is
    ///   advanced once, in order. When the last one has landed, a new tile
    ///   comes onto some free cell, and the game ends with `NoMovesLeft`
    ///   where that fills the board and no direction changes it. (A free
    ///   cell is there: the tile that landed last has left one.)
    /// - At rest, a tick without a command changes nothing. A command puts
    ///   the moves that the resolver finds in flight. Where there are none,
    ///   the command is dropped, and on a full board that no direction
    ///   changes the game ends with `NoMovesLeft`.
    pub open spec fn ticked(
        self,
        mv: Option<Move>,
        after: GridView,
        r: Result<(), GameOverReason>,
    ) -> bool {
        if self.over {
            after == self && r is Ok
        } else if self.moving_tiles.len() > 0 {
            let moved = self.advance_each(self.moving_tiles);
            if moved.moving_tiles.len() > 0 {
                after == moved && r is Ok
            } else {
                exists|p: Position| moved.is_free(p) && moved.spawned(p).settled(after, r)
            }
        } else {
            match mv {
                None => after == self && r is Ok,
                Some(m) => {
                    if self.transitions(m).len() > 0 {
                        after == self.with_moving(self.transitions(m)) && r is Ok
                    } else if self.full() && self.stuck() {
                        after == self.ended() && r == Err::<(), GameOverReason>(
                            GameOverReason::NoMovesLeft,
                        )
                    } else {
                        after == self && r is Ok
                    }
                },
            }
        }
    }
}

impl Grid {
    /// The layout lets the animation work: see [`GridView::geometry_ok`].
    pub fn has_sound_layout(&self) -> (sound: bool)
        ensures
            sound == self@.geometry_ok(),
    {
        if self.size < 2 {
            return false;
        }
        let pitch_x: u64 = MARGINX as u64 + self.tile_width as u64;
        let pitch_y: u64 = MARGINY as u64 + self.tile_height as u64;
        let last: u64 = (self.size - 1) as u64;
        proof {
            assert(0 <= last * pitch_x <= 0xffff * 0x2_0000 && 0 <= last * pitch_y <= 0xffff
                * 0x2_0000) by (nonlinear_arith)
                requires
                    0 <= last <= 0xffff,
                    0 <= pitch_x <= 0x2_0000,
                    0 <= pitch_y <= 0x2_0000,
            ;
        }
        let right: u64 = self.coordinates.x as u64 + MARGINX as u64 + last * pitch_x;
        let bottom: u64 = self.coordinates.y as u64 + MARGINY as u64 + last * pitch_y;
        pitch_x % (STEPX as u64) == 0 && pitch_y % (STEPY as u64) == 0 && right <= u16::MAX as u64
            && bottom <= u16::MAX as u64
    }

    /// Advances the `b`-th move in flight by one tick and says whether its
    /// tile has landed.
    fn advance_move(&mut self, b: usize) -> (landed: bool)
        requires
            old(self)@.inv(b as int),
            b < old(self).moving_tiles@.len(),
            total(old(self).tiles@) <= u32::MAX,
        ensures
            final(self)@ == old(self)@.advance(
                old(self).moving_tiles@[b as int].0,
                old(self).moving_tiles@[b as int].1,
            ),
            landed == old(self)@.lands(
                old(self).moving_tiles@[b as int].0,
                old(self).moving_tiles@[b as int].1,
            ),
            landed ==> final(self)@.inv(b as int) && final(self).moving_tiles@ == old(
                self,
            ).moving_tiles@.remove(b as int) && final(self)@.is_free(
                old(self).moving_tiles@[b as int].0,
            ),
            !landed ==> final(self)@.inv(b + 1) && final(self).moving_tiles@ == old(
                self,
            ).moving_tiles@,
            total(final(self).tiles@) == total(old(self).tiles@),
    {
        let (pos, new_pos) = self.moving_tiles[b];
        proof {
            assert(self@.flight_ok(b as int));
            assert(self@.on_board(self@.moving_tiles[b as int].0));
            lemma_cell_gap(self@, pos, new_pos);
            lemma_tile_at_map(self.tiles@, pos);
            lemma_tile_at_map(self.tiles@, new_pos);
            lemma_stepped(self@.board()[pos].coordinates, self@.cell(new_pos));
            lemma_departure(self.moving_tiles@, b as int);
            if self@.lands(pos, new_pos) {
                lemma_arrive(self@, b as int);
            } else {
                lemma_approach(self@, b as int);
            }
        }
        let desired = self.get_coordinates_at(new_pos);
        let tile = self.get_tile(pos).unwrap();
        let current = tile.coordinates;

        let mut x: u16 = current.x;
        let mut y: u16 = current.y;

        if desired.x > current.x {
            x += STEPX;
        } else if desired.x < current.x {
            x -= STEPX;
        } else if desired.y > current.y {
            y += STEPY;
        } else if desired.y < current.y {
            y -= STEPY;
        }
        if desired == Coordinates::new(x, y) {
            if let Some(tile) = self.get_tile(new_pos) {
                self.put_tile(new_pos, Tile::new(desired, tile.n * 2));
            } else {
                let n: u32 = self.get_tile(pos).unwrap().n;
                self.put_tile(new_pos, Tile::new(desired, n));
            }
            self.remove_tile(pos);
            self.remove_moving_tile(pos);
            true
        } else {
            let tile = self.get_tile_mut(pos).unwrap();
            tile.mv(Coordinates::new(x, y));
            false
        }
    }

    /// Runs the grid for one tick.
    ///
    /// This is the one entry point that changes a grid in play; what it does
    /// is laid down in [`GridView::ticked`]. An error is returned once, when
    /// the game ends, and it is `NoMovesLeft`: the spawner never meets a full
    /// board here. The invariant of the grid is kept, and the sum of the
    /// values changes only when a new tile comes onto the board, which adds
    /// exactly its value. The sum must leave room for that value in a `u32`.
    pub fn on_tick(&mut self, mv: Option<Move>) -> (r: Result<(), GameOverReason>)
        requires
            old(self)@.wf(),
            total(old(self).tiles@) + SPAWN_VALUE <= u32::MAX,
        ensures
            final(self)@.wf(),
            old(self)@.ticked(mv, final(self)@, r),
            total(final(self).tiles@) == total(old(self).tiles@) + (if old(self)@.spawns_now() {
                SPAWN_VALUE as int
            } else {
                0int
            }),
            r is Err ==> final(self).over && r == Err::<(), GameOverReason>(
                GameOverReason::NoMovesLeft,
            ),
    {
        if self.over {
            return Ok(());
        }
        if self.moving_tiles.len() > 0 {
            let ghost start = self@;
            let ghost moves = self.moving_tiles@;
            let ghost mut done: int = 0;
            let mut b: usize = 0;
            proof {
                assert(moves.take(0) =~= Seq::empty());
                assert(self.moving_tiles@.skip(0) =~= moves.skip(0));
            }
            while b < self.moving_tiles.len()
                invariant
                    0 <= done <= moves.len(),
                    b <= self.moving_tiles@.len(),
                    self@.inv(b as int),
                    !self.over,
                    total(self.tiles@) == total(start.tiles),
                    total(start.tiles) + SPAWN_VALUE <= u32::MAX,
                    self@ == start.advance_each(moves.take(done)),
                    self.moving_tiles@.skip(b as int) == moves.skip(done),
                    self.moving_tiles@.len() == 0 ==> !self@.full(),
                decreases self.moving_tiles@.len() - b,
            {
                let ghost before = self.moving_tiles@;
                proof {
                    assert(before.skip(b as int)[0] == moves.skip(done)[0]);
                    assert(before.skip(b as int).len() == moves.skip(done).len());
                    assert(moves.take(done + 1).drop_last() =~= moves.take(done));
                }
                let landed = self.advance_move(b);
                proof {
                    if landed {
                        assert(self.moving_tiles@.skip(b as int) =~= before.skip(b as int).skip(1));
                    } else {
                        assert(self.moving_tiles@.skip(b + 1) =~= before.skip(b as int).skip(1));
                    }
                    assert(moves.skip(done + 1) =~= moves.skip(done).skip(1));
                    done = done + 1;
                }
                if !landed {
                    b += 1;
                }
            }
            proof {
                assert(self.moving_tiles@.skip(b as int).len() == 0);
                assert(moves.skip(done).len() == 0);
                assert(moves.take(done) =~= moves);
                lemma_tick_done(self@);
            }
            if self.moving_tiles.len() == 0 {
                proof {
                    assert forall|p: Position| #[trigger] self@.on_board(p) implies self@.fits(
                        p,
                    ) by {
                        lemma_cell_gap(self@, p, p);
                    }
                    lemma_placed(self@);
                }
                let spawned = self.spawn_random_tile();
                if self.is_full() && !self.can_move() {
                    proof {
                        lemma_ended(self@, 0);
                    }
                    self.over = true;
                    return Err(GameOverReason::NoMovesLeft);
                }
                return spawned;
            }
            return Ok(());
        }
        match mv {
            None => Ok(()),
            Some(m) => {
                proof {
                    lemma_placed(self@);
                    lemma_take_off(self@, m);
                }
                let moves = self.check(m);
                if moves.len() > 0 {
                    self.moving_tiles = moves;
                    Ok(())
                } else if self.is_full() && !self.can_move() {
                    proof {
                        lemma_ended(self@, 0);
                    }
                    self.over = true;
                    Err(GameOverReason::NoMovesLeft)
                } else {
                    Ok(())
                }
            },
        }
    }
}

/// The end of the game leaves the invariant as it is.
pub proof fn lemma_ended(v: GridView, b: int)
    requires
        v.inv(b),
    ensures
        v.ended().inv(b),
{
    let w = v.ended();
    assert forall|i: int| 0 <= i < w.moving_tiles.len() implies #[trigger] w.flight_ok(i) && w.due(
        i,
        b,
    ) == v.due(i, b) by {
        assert(v.flight_ok(i));
    }
    assert forall|p: Position| w.at_rest(p) == v.at_rest(p) by {}
    assert(w.all_on_board()) by {
        assert forall|i: int| 0 <= i < w.tiles.len() implies w.on_board(
            (#[trigger] w.tiles[i]).0,
        ) by {
            assert(v.on_board(v.tiles[i].0));
        }
        assert forall|i: int| 0 <= i < w.moving_tiles.len() implies w.on_board(
            (#[trigger] w.moving_tiles[i]).0,
        ) && w.on_board(w.moving_tiles[i].1) by {
            assert(v.on_board(v.moving_tiles[i].0));
        }
    }
    assert(w.resting_at_home()) by {
        assert forall|p: Position| #[trigger] w.at_rest(p) implies w.board()[p].coordinates
            == w.cell(p) by {
            assert(v.at_rest(p));
        }
    }
    assert(w.leaves_first(b)) by {
        assert forall|i: int, j: int|
            0 <= i < w.moving_tiles.len() && 0 <= j < w.moving_tiles.len() && i != j && (
            #[trigger] w.moving_tiles[i]).1 == (#[trigger] w.moving_tiles[j]).0 implies j < i
            && w.due(j, b) <= w.due(i, b) by {
            assert(v.moving_tiles[i].1 == v.moving_tiles[j].0);
            assert(v.due(j, b) <= v.due(i, b));
        }
    }
    assert(w.pairs_ok(b)) by {
        assert forall|i: int, j: int|
            0 <= i < j < w.moving_tiles.len() && (#[trigger] w.moving_tiles[i]).1 == (
            #[trigger] w.moving_tiles[j]).1 implies w.due(i, b) < w.due(j, b)
            && w.board()[w.moving_tiles[i].0].n == w.board()[w.moving_tiles[j].0].n && !w.at_rest(
            w.moving_tiles[i].1,
        ) by {
            assert(v.moving_tiles[i].1 == v.moving_tiles[j].1);
            assert(v.due(i, b) < v.due(j, b));
            assert(!v.at_rest(v.moving_tiles[i].1));
        }
    }
    assert(w.merges_equal()) by {
        assert forall|i: int|
            0 <= i < w.moving_tiles.len() && w.at_rest(
                (#[trigger] w.moving_tiles[i]).1,
            ) implies w.board()[w.moving_tiles[i].1].n == w.board()[w.moving_tiles[i].0].n by {
            assert(v.at_rest(v.moving_tiles[i].1));
        }
    }
}

/// A grid that meets the scheduler's invariant has a sound store.
pub proof fn lemma_placed(v: GridView)
    requires
        v.inv(0),
    ensures
        v.placed(),
{
    assert forall|i: int| 0 <= i < v.tiles.len() implies (#[trigger] v.tiles[i]).1.n > 0 by {
        assert(tile_value(v.tiles[i].1.n));
    }
}

} // verus!
