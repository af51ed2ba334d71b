//! What holds of every move: the sum of the values is kept, the animation
//! ends and leaves room for the new tile, no tile merges twice, and a board
//! that is already packed does not move.

use vstd::prelude::*;
use crate::animate::{
    before_removal, lemma_approach, lemma_arrive, lemma_departure, lemma_placed, lemma_tick_done,
};
use crate::flight::{
    canon_from, canon_of, canon_to, lemma_canonical_board, lemma_flight, lemma_move, lemma_rest,
    lemma_take_off, ticks_per_cell,
};
use crate::game::{departs, GridView, Move, Position, Tile};
use crate::outcome::{goal, lemma_approach_load, lemma_arrive_load};
use crate::resolve::{
    column_limit, lemma_moves_of, lemma_pack_len, lemma_slide_no_third, lemma_slide_pair,
    lemma_slide_range, moves_of, origin, pack, slide, Pack,
};
use crate::rotate::{from_canonical, law_rotation_round_trip, to_canonical};
use crate::store::{
    count, lemma_count_few, lemma_entry_lookup, lemma_slot_of_held, lemma_weigh_agree,
    lemma_weigh_cell, lemma_weigh_equal_values, slot, tile_map, total, value_at, weigh,
};
use crate::trusted::{lemma_sorted_by_x, sorted_by_x};

verus! {

impl GridView {
    /// The cell in which the tile on `pos` comes to rest when the board is
    /// pushed in direction `mv`.
    pub open spec fn resting_cell(self, mv: Move, pos: Position) -> Position {
        from_canonical(
            mv,
            self.size,
            slide(tile_map(canon_of(self, mv)), to_canonical(mv, self.size, pos)),
        )
    }

    /// The value that a push in direction `mv` lays down for `cell`: the sum
    /// of the values of the tiles that come to rest there, 0 where none does.
    pub open spec fn resolved_value(self, mv: Move, cell: Position) -> int {
        weigh(self.tiles, |from: Position| self.resting_cell(mv, from) == cell)
    }

    /// The board is packed in direction `mv`: seen from the side the push
    /// goes to, every tile but the first of its row has a tile right before
    /// it, and that tile carries another value.
    pub open spec fn packed(self, mv: Move) -> bool {
        forall|c: Position| #[trigger]
            tile_map(canon_of(self, mv)).dom().contains(c) && c.x > 0 ==> {
                let before = Position { x: (c.x - 1) as u16, y: c.y };
                &&& tile_map(canon_of(self, mv)).dom().contains(before)
                &&& tile_map(canon_of(self, mv))[before].n != tile_map(canon_of(self, mv))[c].n
            }
    }

    /// No move in flight needs more than `limit` ticks to land.
    pub open spec fn lands_within(self, limit: int) -> bool {
        forall|i: int| 0 <= i < self.moving_tiles.len() ==> #[trigger] self.lag(i) <= limit
    }

    /// The grid after `ticks` ticks without a command and without the
    /// spawner: in each tick every move in flight is advanced once.
    pub open spec fn after_ticks(self, ticks: nat) -> GridView
        decreases ticks,
    {
        if ticks == 0 {
            self
        } else {
            let before = self.after_ticks((ticks - 1) as nat);
            before.advance_each(before.moving_tiles)
        }
    }
}

/// Advancing the first `k` moves in flight keeps the sum of the values, and
/// leaves the grid in the middle of a sound tick: the proof returns the
/// number of moves that have been advanced and are still in flight. Each of
/// those is one tick closer to its target.
pub proof fn lemma_advance_prefix(v: GridView, k: int, limit: int) -> (b: int)
    requires
        v.inv(0),
        total(v.tiles) <= u32::MAX,
        0 <= k <= v.moving_tiles.len(),
        v.lands_within(limit),
    ensures
        v.advance_each(v.moving_tiles.take(k)).inv(b),
        v.advance_each(v.moving_tiles.take(k)).moving_tiles.skip(b) == v.moving_tiles.skip(k),
        total(v.advance_each(v.moving_tiles.take(k)).tiles) == total(v.tiles),
        v.advance_each(v.moving_tiles.take(k)).lands_within(limit),
        forall|i: int|
            0 <= i < b ==> #[trigger] v.advance_each(v.moving_tiles.take(k)).lag(i) <= limit - 1,
        k > 0 && v.advance_each(v.moving_tiles.take(k)).moving_tiles.len() == 0
            ==> !v.advance_each(v.moving_tiles.take(k)).full(),
        forall|cell: Position| #[trigger]
            v.advance_each(v.moving_tiles.take(k)).load(cell) == v.load(cell),
    decreases k,
{
    let m = v.moving_tiles;
    if k == 0 {
        assert(m.take(0) =~= Seq::empty());
        assert(m.skip(0) =~= m);
        0
    } else {
        let b0 = lemma_advance_prefix(v, k - 1, limit);
        let w = v.advance_each(m.take(k - 1));
        assert(m.take(k).drop_last() =~= m.take(k - 1));
        assert(m.take(k).last() == m[k - 1]);
        assert(w.moving_tiles.skip(b0)[0] == m.skip(k - 1)[0]);
        assert(w.moving_tiles.skip(b0).len() == m.skip(k - 1).len());
        let from = m[k - 1].0;
        let to = m[k - 1].1;
        assert(w.moving_tiles[b0] == (from, to));
        let after = w.advance(from, to);
        assert(v.advance_each(m.take(k)) == after);
        assert(m.skip(k) =~= m.skip(k - 1).skip(1));
        assert forall|cell: Position| #[trigger] after.load(cell) == v.load(cell) by {
            if w.lands(from, to) {
                lemma_arrive_load(w, b0, cell);
            } else {
                lemma_approach_load(w, b0, cell);
            }
        }
        if w.lands(from, to) {
            lemma_arrive(w, b0);
            assert(after.is_free(from));
            assert(after.moving_tiles.skip(b0) =~= w.moving_tiles.skip(b0).skip(1));
            assert forall|i: int| 0 <= i < after.moving_tiles.len() implies #[trigger] after.lag(i)
                <= limit && (i < b0 ==> after.lag(i) <= limit - 1) by {
                assert(after.lag(i) == w.lag(before_removal(i, b0)));
            }
            b0
        } else {
            lemma_approach(w, b0);
            assert(after.moving_tiles.skip(b0 + 1) =~= w.moving_tiles.skip(b0).skip(1));
            assert forall|i: int| 0 <= i < after.moving_tiles.len() implies #[trigger] after.lag(i)
                <= limit && (i < b0 + 1 ==> after.lag(i) <= limit - 1) by {
                assert(w.lag(i) <= limit);
            }
            b0 + 1
        }
    }
}

/// One tick of animation keeps the invariant of the grid and the sum of the
/// values, and brings every move in flight one tick closer to its target.
/// The tick in which the last tile lands leaves a cell free.
pub proof fn lemma_tick(v: GridView, limit: int)
    requires
        v.wf(),
        total(v.tiles) <= u32::MAX,
        v.lands_within(limit),
    ensures
        v.advance_each(v.moving_tiles).wf(),
        total(v.advance_each(v.moving_tiles).tiles) == total(v.tiles),
        v.advance_each(v.moving_tiles).lands_within(limit - 1),
        v.moving_tiles.len() > 0 && v.advance_each(v.moving_tiles).moving_tiles.len() == 0
            ==> !v.advance_each(v.moving_tiles).full(),
        forall|cell: Position| #[trigger] v.advance_each(v.moving_tiles).load(cell) == v.load(cell),
{
    let m = v.moving_tiles;
    let b = lemma_advance_prefix(v, m.len() as int, limit);
    assert(m.take(m.len() as int) =~= m);
    let w = v.advance_each(m);
    assert(w.moving_tiles.skip(b).len() == m.skip(m.len() as int).len());
    lemma_tick_done(w);
}

/// Any number of ticks keeps the invariant of the grid and the sum of the
/// values, and brings every move in flight that many ticks closer.
pub proof fn lemma_ticks(v: GridView, limit: int, ticks: nat)
    requires
        v.wf(),
        total(v.tiles) <= u32::MAX,
        v.lands_within(limit),
    ensures
        v.after_ticks(ticks).wf(),
        total(v.after_ticks(ticks).tiles) == total(v.tiles),
        v.after_ticks(ticks).lands_within(limit - ticks),
        forall|cell: Position| #[trigger] v.after_ticks(ticks).load(cell) == v.load(cell),
    decreases ticks,
{
    if ticks > 0 {
        lemma_ticks(v, limit, (ticks - 1) as nat);
        lemma_tick(v.after_ticks((ticks - 1) as nat), limit - (ticks - 1));
    }
}

/// The moves that the resolver hands out land within as many ticks as it
/// takes to cross the board.
pub proof fn lemma_flights_are_short(v: GridView, mv: Move)
    requires
        v.wf(),
        v.moving_tiles.len() == 0,
    ensures
        v.with_moving(v.transitions(mv)).lands_within((v.size - 1) * ticks_per_cell(v, mv)),
{
    let w = v.with_moving(v.transitions(mv));
    let unit = ticks_per_cell(v, mv);
    assert forall|i: int| 0 <= i < w.moving_tiles.len() implies #[trigger] w.lag(i) <= (v.size - 1)
        * unit by {
        lemma_flight(v, mv, i);
        let d = canon_from(v, mv, i).x - canon_to(v, mv, i).x;
        assert(d * unit <= (v.size - 1) * unit) by (nonlinear_arith)
            requires
                d <= v.size - 1,
                unit >= 1,
        ;
    }
}

/// The sum of all tile values is the same before a move and after any
/// number of ticks of its animation, so also once the last tile has landed:
/// a merge puts twice the value on one cell and takes the value off another.
/// The grid stays sound all the way. (The spawner then adds the value of the
/// new tile: see `Grid::on_tick` and `Grid::spawn_random_tile`.)
pub proof fn law_sum_conserved(v: GridView, mv: Move, ticks: nat)
    requires
        v.wf(),
        v.moving_tiles.len() == 0,
        total(v.tiles) <= u32::MAX,
    ensures
        v.with_moving(v.transitions(mv)).after_ticks(ticks).wf(),
        total(v.with_moving(v.transitions(mv)).after_ticks(ticks).tiles) == total(v.tiles),
{
    lemma_take_off(v, mv);
    lemma_flights_are_short(v, mv);
    lemma_ticks(
        v.with_moving(v.transitions(mv)),
        (v.size - 1) * ticks_per_cell(v, mv),
        ticks,
    );
}

/// The animation of a move ends: once as many ticks have passed as a tile
/// needs to cross the board, no move is in flight any more.
pub proof fn law_animation_ends(v: GridView, mv: Move, ticks: nat)
    requires
        v.wf(),
        v.moving_tiles.len() == 0,
        total(v.tiles) <= u32::MAX,
        ticks >= (v.size - 1) * ticks_per_cell(v, mv),
    ensures
        v.with_moving(v.transitions(mv)).after_ticks(ticks).moving_tiles.len() == 0,
{
    let start = v.with_moving(v.transitions(mv));
    let limit = (v.size - 1) * ticks_per_cell(v, mv);
    lemma_take_off(v, mv);
    lemma_flights_are_short(v, mv);
    lemma_ticks(start, limit, ticks);
    let w = start.after_ticks(ticks);
    if w.moving_tiles.len() > 0 {
        assert(w.flight_ok(0));
        assert(w.lag(0) <= limit - ticks);
    }
}

/// The moves of a push are the moves of the tiles that do not stay: each
/// leads from the cell of a tile to the cell in which that tile comes to
/// rest, and every tile that comes to rest elsewhere makes one.
pub proof fn law_moves_reach_resting_cells(v: GridView, mv: Move)
    requires
        v.placed(),
        v.size >= 2,
    ensures
        forall|i: int|
            0 <= i < v.transitions(mv).len() ==> {
                let from = (#[trigger] v.transitions(mv)[i]).0;
                let to = v.transitions(mv)[i].1;
                &&& v.board().dom().contains(from)
                &&& to == v.resting_cell(mv, from)
                &&& to != from
            },
        forall|p: Position| #[trigger]
            v.board().dom().contains(p) && v.resting_cell(mv, p) != p ==> departs(
                v.transitions(mv),
                p,
            ),
{
    assert forall|i: int| 0 <= i < v.transitions(mv).len() implies {
        let from = (#[trigger] v.transitions(mv)[i]).0;
        let to = v.transitions(mv)[i].1;
        &&& v.board().dom().contains(from)
        &&& to == v.resting_cell(mv, from)
        &&& to != from
    } by {
        lemma_move(v, mv, i);
    }
    assert forall|p: Position| #[trigger]
        v.board().dom().contains(p) && v.resting_cell(mv, p) != p implies departs(
        v.transitions(mv),
        p,
    ) by {
        lemma_rest(v, mv, p);
        lemma_canonical_board(v, mv);
        let c = to_canonical(mv, v.size, p);
        law_rotation_round_trip(mv, v.size, p);
        lemma_slide_range(tile_map(canon_of(v, mv)), c);
        law_rotation_round_trip(mv, v.size, slide(tile_map(canon_of(v, mv)), c));
    }
}

/// The board that a move leaves behind is the board that the resolver has
/// laid down: once the last tile has landed, every cell holds the sum of the
/// values of the tiles that came to rest there, and an empty cell is one
/// where none did. Every tile is drawn on its cell then, as the invariant of
/// the grid says.
pub proof fn law_settled_board_is_resolved(v: GridView, mv: Move, ticks: nat, cell: Position)
    requires
        v.wf(),
        v.moving_tiles.len() == 0,
        total(v.tiles) <= u32::MAX,
        v.with_moving(v.transitions(mv)).after_ticks(ticks).moving_tiles.len() == 0,
    ensures
        value_at(v.with_moving(v.transitions(mv)).after_ticks(ticks).tiles, cell)
            == v.resolved_value(mv, cell),
{
    let start = v.with_moving(v.transitions(mv));
    let end = start.after_ticks(ticks);
    lemma_take_off(v, mv);
    lemma_flights_are_short(v, mv);
    lemma_ticks(start, (v.size - 1) * ticks_per_cell(v, mv), ticks);
    assert(end.load(cell) == start.load(cell));
    // at the end every tile is where it was headed
    let at_end = |from: Position| goal(end.moving_tiles, from) == cell;
    let on_cell = |from: Position| from == cell;
    assert forall|i: int| 0 <= i < end.tiles.len() implies at_end((#[trigger] end.tiles[i]).0)
        == on_cell(end.tiles[i].0) by {
        assert(!departs(end.moving_tiles, end.tiles[i].0));
    }
    lemma_weigh_agree(end.tiles, at_end, on_cell);
    lemma_weigh_cell(end.tiles, cell);
    // at the start every tile is headed for the cell in which it comes to rest
    let headed = |from: Position| goal(start.moving_tiles, from) == cell;
    let resting = |from: Position| v.resting_cell(mv, from) == cell;
    lemma_placed(v);
    law_moves_reach_resting_cells(v, mv);
    assert forall|i: int| 0 <= i < v.tiles.len() implies headed((#[trigger] v.tiles[i]).0)
        == resting(v.tiles[i].0) by {
        let k = v.tiles[i].0;
        lemma_entry_lookup(v.tiles, i);
        assert(v.board().dom().contains(k));
        assert(start.moving_tiles == v.transitions(mv));
        if departs(start.moving_tiles, k) {
            let j = choose|j: int|
                0 <= j < start.moving_tiles.len() && (#[trigger] start.moving_tiles[j]).0 == k;
            assert(start.sources_distinct());
            lemma_departure(start.moving_tiles, j);
            assert(v.transitions(mv)[j].1 == v.resting_cell(mv, k));
            assert(goal(start.moving_tiles, k) == v.resting_cell(mv, k));
        } else {
            assert(v.resting_cell(mv, k) == k);
            assert(goal(start.moving_tiles, k) == k);
        }
    }
    lemma_weigh_agree(v.tiles, headed, resting);
}

/// A move leaves room for the new tile: once the last tile of a move that
/// changes the board has landed, some cell is free.
pub proof fn law_move_leaves_room(v: GridView, mv: Move, ticks: nat)
    requires
        v.wf(),
        v.moving_tiles.len() == 0,
        total(v.tiles) <= u32::MAX,
        v.transitions(mv).len() > 0,
        v.with_moving(v.transitions(mv)).after_ticks(ticks).moving_tiles.len() == 0,
    ensures
        !v.with_moving(v.transitions(mv)).after_ticks(ticks).full(),
    decreases ticks,
{
    let start = v.with_moving(v.transitions(mv));
    let limit = (v.size - 1) * ticks_per_cell(v, mv);
    if ticks > 0 {
        let before = start.after_ticks((ticks - 1) as nat);
        lemma_take_off(v, mv);
        lemma_flights_are_short(v, mv);
        lemma_ticks(start, limit, (ticks - 1) as nat);
        if before.moving_tiles.len() > 0 {
            lemma_tick(before, limit - (ticks - 1));
        } else {
            law_move_leaves_room(v, mv, (ticks - 1) as nat);
        }
    }
}

/// No cell takes in more than two tiles in one move: of three different
/// tiles, not all come to rest in one cell. So what a merge has produced
/// does not merge again in that move.
pub proof fn law_no_double_merge(v: GridView, mv: Move, p: Position, q: Position, s: Position)
    requires
        v.placed(),
        v.size >= 2,
        v.board().dom().contains(p),
        v.board().dom().contains(q),
        v.board().dom().contains(s),
        p != q,
        q != s,
        p != s,
    ensures
        !(v.resting_cell(mv, p) == v.resting_cell(mv, q) && v.resting_cell(mv, q)
            == v.resting_cell(mv, s)),
{
    let board = tile_map(canon_of(v, mv));
    let cp = to_canonical(mv, v.size, p);
    let cq = to_canonical(mv, v.size, q);
    let cs = to_canonical(mv, v.size, s);
    lemma_canonical_board(v, mv);
    law_rotation_round_trip(mv, v.size, p);
    law_rotation_round_trip(mv, v.size, q);
    law_rotation_round_trip(mv, v.size, s);
    lemma_slide_range(board, cp);
    lemma_slide_range(board, cq);
    lemma_slide_range(board, cs);
    law_rotation_round_trip(mv, v.size, slide(board, cp));
    law_rotation_round_trip(mv, v.size, slide(board, cq));
    law_rotation_round_trip(mv, v.size, slide(board, cs));
    if v.resting_cell(mv, p) == v.resting_cell(mv, q) && v.resting_cell(mv, q) == v.resting_cell(
        mv,
        s,
    ) {
        assert(slide(board, cp) == slide(board, cq));
        assert(slide(board, cq) == slide(board, cs));
        assert(cp.y == cq.y && cq.y == cs.y);
        if cp.x < cq.x {
            if cq.x < cs.x {
                lemma_slide_no_third(board, cp, cq, cs);
            } else if cp.x < cs.x {
                lemma_slide_no_third(board, cp, cs, cq);
            } else {
                lemma_slide_no_third(board, cs, cp, cq);
            }
        } else {
            if cp.x < cs.x {
                lemma_slide_no_third(board, cq, cp, cs);
            } else if cq.x < cs.x {
                lemma_slide_no_third(board, cq, cs, cp);
            } else {
                lemma_slide_no_third(board, cs, cq, cp);
            }
        }
    }
}

/// Two different tiles that come to rest in one cell carry the same value.
pub proof fn law_merge_joins_equals(v: GridView, mv: Move, p: Position, q: Position)
    requires
        v.placed(),
        v.size >= 2,
        v.board().dom().contains(p),
        v.board().dom().contains(q),
        p != q,
        v.resting_cell(mv, p) == v.resting_cell(mv, q),
    ensures
        v.board()[p].n == v.board()[q].n,
{
    let board = tile_map(canon_of(v, mv));
    let cp = to_canonical(mv, v.size, p);
    let cq = to_canonical(mv, v.size, q);
    lemma_canonical_board(v, mv);
    law_rotation_round_trip(mv, v.size, p);
    law_rotation_round_trip(mv, v.size, q);
    lemma_slide_range(board, cp);
    lemma_slide_range(board, cq);
    law_rotation_round_trip(mv, v.size, slide(board, cp));
    law_rotation_round_trip(mv, v.size, slide(board, cq));
    assert(slide(board, cp) == slide(board, cq));
    if cp.x < cq.x {
        lemma_slide_pair(board, cp, cq);
    } else {
        lemma_slide_pair(board, cq, cp);
    }
}

/// The value that a push lays down for a cell is that of one tile or twice
/// that of one tile: where any tile comes to rest in the cell, one or two
/// do, and two carry the same value.
pub proof fn law_cell_takes_one_or_two(v: GridView, mv: Move, cell: Position)
    requires
        v.placed(),
        v.size >= 2,
    ensures
        v.resolved_value(mv, cell) == 0 || exists|from: Position|
            v.board().dom().contains(from) && v.resting_cell(mv, from) == cell && (
            v.resolved_value(mv, cell) == v.board()[from].n || v.resolved_value(mv, cell) == 2
                * v.board()[from].n),
{
    let resting = |from: Position| v.resting_cell(mv, from) == cell;
    let tiles = v.tiles;
    lemma_count_few(tiles, resting);
    if count(tiles, resting) > 0 {
        let i = choose|i: int| 0 <= i < tiles.len() && resting((#[trigger] tiles[i]).0);
        let from = tiles[i].0;
        let n = tiles[i].1.n as int;
        lemma_entry_lookup(tiles, i);
        assert forall|j: int|
            0 <= j < tiles.len() && resting((#[trigger] tiles[j]).0) implies tiles[j].1.n
            == n by {
            lemma_entry_lookup(tiles, j);
            if j != i {
                if j < i {
                    assert(tiles[j].0 != tiles[i].0);
                } else {
                    assert(tiles[i].0 != tiles[j].0);
                }
                law_merge_joins_equals(v, mv, tiles[j].0, from);
            }
        }
        lemma_weigh_equal_values(tiles, resting, n);
        assert forall|a: int, b: int, c: int| 0 <= a < b < c < tiles.len() implies !(resting(
            (#[trigger] tiles[a]).0,
        ) && resting((#[trigger] tiles[b]).0) && resting((#[trigger] tiles[c]).0)) by {
            lemma_entry_lookup(tiles, a);
            lemma_entry_lookup(tiles, b);
            lemma_entry_lookup(tiles, c);
            assert(tiles[a].0 != tiles[b].0 && tiles[b].0 != tiles[c].0 && tiles[a].0
                != tiles[c].0);
            law_no_double_merge(v, mv, tiles[a].0, tiles[b].0, tiles[c].0);
        }
        let k = count(tiles, resting);
        assert(k == 1 || k == 2);
        assert(k * n == n || k * n == 2 * n) by (nonlinear_arith)
            requires
                k == 1 || k == 2,
        ;
    } else {
        assert forall|j: int| 0 <= j < tiles.len() implies !resting((#[trigger] tiles[j]).0) by {}
        lemma_weigh_equal_values(tiles, resting, 0);
    }
}

/// On a packed board every row is its own packing.
proof fn lemma_packed_row(board: Map<Position, Tile>, c: Position)
    requires
        board.dom().contains(c),
        forall|d: Position| #[trigger]
            board.dom().contains(d) && d.x > 0 ==> {
                let before = Position { x: (d.x - 1) as u16, y: d.y };
                &&& board.dom().contains(before)
                &&& board[before].n != board[d].n
            },
    ensures
        pack(board, c.y, c.x + 1) == (Pack { len: c.x + 1, top: board[c].n as int, merged: false }),
        slide(board, c) == c,
    decreases c.x,
{
    let cell = Position { x: ((c.x + 1) - 1) as u16, y: c.y };
    assert(cell == c);
    let row = pack(board, c.y, c.x as int);
    assert(pack(board, c.y, c.x + 1) == row.absorb(board[c].n as int));
    if c.x > 0 {
        let before = Position { x: (c.x - 1) as u16, y: c.y };
        assert(board.dom().contains(before) && board[before].n != board[c].n);
        lemma_packed_row(board, before);
        assert(before.x + 1 == c.x);
        assert(row == (Pack { len: c.x as int, top: board[before].n as int, merged: false }));
    } else {
        assert(row == (Pack { len: 0, top: 0, merged: false }));
    }
    assert(!row.merges(board[c].n as int));
}

/// A push in a direction in which the board is already packed makes no
/// move.
pub proof fn law_packed_board_stays(v: GridView, mv: Move)
    requires
        v.placed(),
        v.size >= 2,
        v.packed(mv),
    ensures
        v.transitions(mv).len() == 0,
{
    let canon = canon_of(v, mv);
    let board = tile_map(canon);
    let sorted = sorted_by_x(canon);
    let moves = moves_of(board, sorted);
    lemma_canonical_board(v, mv);
    lemma_sorted_by_x(canon);
    lemma_moves_of(board, sorted);
    if moves.len() > 0 {
        let a = origin(board, sorted, 0);
        assert(canon.contains(sorted[a]));
        let k = choose|k: int| 0 <= k < canon.len() && canon[k] == sorted[a];
        lemma_entry_lookup(canon, k);
        lemma_packed_row(board, sorted[a].0);
    }
}

/// A packed row that is as long as the stretch it was packed from has a
/// tile in every cell of the stretch, and its last cell is no product of a
/// merge.
proof fn lemma_full_row(board: Map<Position, Tile>, y: u16, x: int)
    requires
        0 <= x <= column_limit(),
        pack(board, y, x).len == x,
    ensures
        forall|p: Position| p.y == y && p.x < x ==> #[trigger] board.dom().contains(p),
        x > 0 ==> !pack(board, y, x).merged && pack(board, y, x).top == board[Position {
            x: (x - 1) as u16,
            y,
        }].n,
    decreases x,
{
    if x > 0 {
        lemma_pack_len(board, y, x - 1);
        let cell = Position { x: (x - 1) as u16, y };
        assert(board.dom().contains(cell));
        lemma_full_row(board, y, x - 1);
        assert forall|p: Position| p.y == y && p.x < x implies #[trigger] board.dom().contains(
            p,
        ) by {
            if p.x == x - 1 {
                assert(p == cell);
            }
        }
    }
}

/// A board on which a push makes no move is packed in that direction: the
/// condition of `law_packed_board_stays` is the weakest that will do.
pub proof fn law_unmoved_board_is_packed(v: GridView, mv: Move)
    requires
        v.placed(),
        v.size >= 2,
        v.transitions(mv).len() == 0,
    ensures
        v.packed(mv),
{
    let canon = canon_of(v, mv);
    let board = tile_map(canon);
    let sorted = sorted_by_x(canon);
    lemma_canonical_board(v, mv);
    lemma_sorted_by_x(canon);
    lemma_moves_of(board, sorted);
    assert forall|c: Position| #[trigger] board.dom().contains(c) && c.x > 0 implies {
        let before = Position { x: (c.x - 1) as u16, y: c.y };
        &&& board.dom().contains(before)
        &&& board[before].n != board[c].n
    } by {
        lemma_slot_of_held(canon, c);
        let k = slot(canon, c);
        assert(sorted.contains(canon[k]));
        let a = choose|a: int| 0 <= a < sorted.len() && sorted[a] == canon[k];
        assert(sorted[a].0 == slide(board, sorted[a].0));
        lemma_slide_range(board, c);
        lemma_pack_len(board, c.y, c.x as int);
        lemma_full_row(board, c.y, c.x as int);
    }
}

} // verus!
