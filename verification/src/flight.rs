//! From the resolver to the scheduler: the moves that the resolver hands out
//! for a grid at rest make a sound set of moves in flight.

use vstd::prelude::*;
use crate::animate::{gap, in_step, lemma_placed, ticks_between};
use crate::game::{departs, GridView, Move, Position, Tile, MARGINX, MARGINY, STEPX, STEPY};
use crate::resolve::{
    lemma_moves_of, lemma_slide_no_third, lemma_slide_pair, lemma_slide_range, moves_of, origin,
    slide,
};
use crate::rotate::{from_canonical, law_rotation_round_trip, tiles_to_canonical, to_canonical};
use crate::store::{distinct, holds, lemma_entry_lookup, lemma_slot_of_held, slot, tile_map};
use crate::trusted::{lemma_sorted_by_x, sorted_by_x};

verus! {

/// The number of ticks a tile needs from one cell to the next when the
/// board is pushed in direction `mv`.
pub open spec fn ticks_per_cell(v: GridView, mv: Move) -> int {
    match mv {
        Move::Left | Move::Right => (MARGINX + v.tile_width) / (STEPX as int),
        Move::Up | Move::Down => (MARGINY + v.tile_height) / (STEPY as int),
    }
}

/// The store of `v` as the resolver sees it under `mv`.
pub open spec fn canon_of(v: GridView, mv: Move) -> Seq<(Position, Tile)> {
    tiles_to_canonical(mv, v.size, v.tiles)
}

/// The cell, on the resolver's board, that the tile of the `i`-th move leaves.
pub open spec fn canon_from(v: GridView, mv: Move, i: int) -> Position {
    let canon = canon_of(v, mv);
    sorted_by_x(canon)[origin(tile_map(canon), sorted_by_x(canon), i)].0
}

/// The cell, on the resolver's board, in which the tile of the `i`-th move
/// comes to rest.
pub open spec fn canon_to(v: GridView, mv: Move, i: int) -> Position {
    slide(tile_map(canon_of(v, mv)), canon_from(v, mv, i))
}

/// The distance between two multiples of a pitch is the distance between
/// the factors, times the pitch.
proof fn lemma_gap_scaled(a: int, b: int, pitch: int, unit: int, step: int)
    requires
        pitch == step * unit,
        unit >= 0,
        step >= 0,
    ensures
        gap(a * pitch, b * pitch) == step * (gap(a, b) * unit),
{
    if a >= b {
        assert(a * pitch >= b * pitch && a * pitch - b * pitch == step * ((a - b) * unit))
            by (nonlinear_arith)
            requires
                a >= b,
                pitch == step * unit,
                unit >= 0,
                step >= 0,
        ;
    } else {
        assert(b * pitch >= a * pitch && b * pitch - a * pitch == step * ((b - a) * unit))
            by (nonlinear_arith)
            requires
                b >= a,
                pitch == step * unit,
                unit >= 0,
                step >= 0,
        ;
    }
}

/// Every cell of a sound layout has representable coordinates, and two cells
/// of one row or one column lie a whole number of ticks apart.
pub proof fn lemma_cell_gap(v: GridView, a: Position, b: Position)
    requires
        v.geometry_ok(),
        v.on_board(a),
        v.on_board(b),
    ensures
        v.fits(a),
        v.fits(b),
        a.y == b.y ==> in_step(v.cell(a), v.cell(b)) && ticks_between(v.cell(a), v.cell(b)) == gap(
            a.x as int,
            b.x as int,
        ) * ((MARGINX + v.tile_width) / (STEPX as int)),
        a.x == b.x ==> in_step(v.cell(a), v.cell(b)) && ticks_between(v.cell(a), v.cell(b)) == gap(
            a.y as int,
            b.y as int,
        ) * ((MARGINY + v.tile_height) / (STEPY as int)),
        (MARGINX + v.tile_width) / (STEPX as int) >= 1,
        (MARGINY + v.tile_height) / (STEPY as int) >= 1,
{
    let px = MARGINX + v.tile_width;
    let py = MARGINY + v.tile_height;
    let ux = px / 4;
    let uy = py / 2;
    let s = v.size - 1;
    assert(px == 4 * ux);
    assert(py == 2 * uy);
    assert(a.x * px <= s * px && b.x * px <= s * px && a.y * py <= s * py && b.y * py <= s * py
        && 0 <= a.x * px && 0 <= b.x * px && 0 <= a.y * py && 0 <= b.y * py)
        by (nonlinear_arith)
        requires
            0 <= a.x <= s,
            0 <= b.x <= s,
            0 <= a.y <= s,
            0 <= b.y <= s,
            px >= 0,
            py >= 0,
    ;
    let dx = gap(a.x as int, b.x as int);
    let dy = gap(a.y as int, b.y as int);
    lemma_gap_scaled(a.x as int, b.x as int, px, ux, 4);
    lemma_gap_scaled(a.y as int, b.y as int, py, uy, 2);
    assert(gap(v.cell(a).x as int, v.cell(b).x as int) == 4 * (dx * ux));
    assert(gap(v.cell(a).y as int, v.cell(b).y as int) == 2 * (dy * uy));
}

/// The resolver's board holds the tiles of the player's board, each in the
/// cell that the turn sends its cell to.
pub proof fn lemma_canonical_board(v: GridView, mv: Move)
    requires
        v.size >= 2,
        distinct(v.tiles),
        v.all_on_board(),
    ensures
        distinct(canon_of(v, mv)),
        forall|p: Position| #[trigger]
            v.board().dom().contains(p) ==> tile_map(canon_of(v, mv)).dom().contains(
                to_canonical(mv, v.size, p),
            ) && tile_map(canon_of(v, mv))[to_canonical(mv, v.size, p)] == v.board()[p]
                && v.on_board(p),
        forall|c: Position| #[trigger]
            tile_map(canon_of(v, mv)).dom().contains(c) ==> v.on_board(c)
                && v.board().dom().contains(from_canonical(mv, v.size, c)) && v.board()[from_canonical(
                mv,
                v.size,
                c,
            )] == tile_map(canon_of(v, mv))[c] && to_canonical(
                mv,
                v.size,
                from_canonical(mv, v.size, c),
            ) == c,
{
    let canon = canon_of(v, mv);
    assert forall|i: int, j: int| 0 <= i < j < canon.len() implies (#[trigger] canon[i]).0 != (
    #[trigger] canon[j]).0 by {
        assert(v.on_board(v.tiles[i].0) && v.on_board(v.tiles[j].0));
        law_rotation_round_trip(mv, v.size, v.tiles[i].0);
        law_rotation_round_trip(mv, v.size, v.tiles[j].0);
    }
    assert forall|p: Position| #[trigger] v.board().dom().contains(p) implies tile_map(
        canon,
    ).dom().contains(to_canonical(mv, v.size, p)) && tile_map(canon)[to_canonical(mv, v.size, p)]
        == v.board()[p] && v.on_board(p) by {
        lemma_slot_of_held(v.tiles, p);
        let i = slot(v.tiles, p);
        assert(v.on_board(v.tiles[i].0));
        lemma_entry_lookup(canon, i);
    }
    assert forall|c: Position| #[trigger] tile_map(canon).dom().contains(c) implies v.on_board(c)
        && v.board().dom().contains(from_canonical(mv, v.size, c)) && v.board()[from_canonical(
        mv,
        v.size,
        c,
    )] == tile_map(canon)[c] && to_canonical(mv, v.size, from_canonical(mv, v.size, c)) == c by {
        lemma_slot_of_held(canon, c);
        let i = slot(canon, c);
        assert(v.on_board(v.tiles[i].0));
        law_rotation_round_trip(mv, v.size, v.tiles[i].0);
        law_rotation_round_trip(mv, v.size, c);
        lemma_entry_lookup(v.tiles, i);
    }
}

/// Where the `i`-th move that the resolver hands out comes from: a tile of
/// the board, and the cell in which that tile comes to rest.
pub proof fn lemma_move(v: GridView, mv: Move, i: int)
    requires
        v.placed(),
        v.size >= 2,
        0 <= i < v.transitions(mv).len(),
    ensures
        ({
            let canon = canon_of(v, mv);
            let sorted = sorted_by_x(canon);
            let a = origin(tile_map(canon), sorted, i);
            let fc = canon_from(v, mv, i);
            let tc = canon_to(v, mv, i);
            let from = v.transitions(mv)[i].0;
            let to = v.transitions(mv)[i].1;
            &&& 0 <= a < sorted.len()
            &&& sorted[a].0 == fc
            &&& tile_map(canon).dom().contains(fc)
            &&& v.on_board(fc)
            &&& v.on_board(tc)
            &&& tc.y == fc.y
            &&& tc.x < fc.x
            &&& from == from_canonical(mv, v.size, fc)
            &&& to == from_canonical(mv, v.size, tc)
            &&& to_canonical(mv, v.size, from) == fc
            &&& to_canonical(mv, v.size, to) == tc
            &&& v.on_board(from)
            &&& v.on_board(to)
            &&& from != to
            &&& v.board().dom().contains(from)
            &&& v.board()[from] == tile_map(canon)[fc]
        }),
{
    let canon = canon_of(v, mv);
    let sorted = sorted_by_x(canon);
    let board = tile_map(canon);
    let mc = moves_of(board, sorted);
    lemma_canonical_board(v, mv);
    lemma_sorted_by_x(canon);
    lemma_moves_of(board, sorted);
    let a = origin(board, sorted, i);
    let fc = canon_from(v, mv, i);
    let tc = canon_to(v, mv, i);
    assert(mc[i] == (fc, tc));
    assert(canon.contains(sorted[a]));
    let k = choose|k: int| 0 <= k < canon.len() && canon[k] == sorted[a];
    lemma_entry_lookup(canon, k);
    lemma_slide_range(board, fc);
    law_rotation_round_trip(mv, v.size, fc);
    law_rotation_round_trip(mv, v.size, tc);
    let from = from_canonical(mv, v.size, fc);
    let to = from_canonical(mv, v.size, tc);
    assert(v.transitions(mv)[i] == (from, to));
}

/// What is known of the `i`-th move that the resolver hands out for a grid
/// at rest: its tile is drawn on its cell, a whole number of ticks away from
/// its target.
pub proof fn lemma_flight(v: GridView, mv: Move, i: int)
    requires
        v.wf(),
        v.moving_tiles.len() == 0,
        0 <= i < v.transitions(mv).len(),
    ensures
        ({
            let w = v.with_moving(v.transitions(mv));
            let canon = canon_of(v, mv);
            let sorted = sorted_by_x(canon);
            let a = origin(tile_map(canon), sorted, i);
            let fc = canon_from(v, mv, i);
            let tc = canon_to(v, mv, i);
            let from = w.moving_tiles[i].0;
            let to = w.moving_tiles[i].1;
            &&& 0 <= a < sorted.len()
            &&& sorted[a].0 == fc
            &&& tile_map(canon).dom().contains(fc)
            &&& v.on_board(fc)
            &&& v.on_board(tc)
            &&& tc.y == fc.y
            &&& tc.x < fc.x
            &&& from == from_canonical(mv, v.size, fc)
            &&& to == from_canonical(mv, v.size, tc)
            &&& to_canonical(mv, v.size, from) == fc
            &&& to_canonical(mv, v.size, to) == tc
            &&& v.on_board(from)
            &&& v.on_board(to)
            &&& from != to
            &&& v.board().dom().contains(from)
            &&& v.board()[from] == tile_map(canon)[fc]
            &&& v.board()[from].coordinates == v.cell(from)
            &&& in_step(v.cell(from), v.cell(to))
            &&& w.lag(i) == (fc.x - tc.x) * ticks_per_cell(v, mv)
            &&& ticks_per_cell(v, mv) >= 1
            &&& w.lag(i) >= 1
        }),
{
    let w = v.with_moving(v.transitions(mv));
    lemma_placed(v);
    lemma_move(v, mv, i);
    let fc = canon_from(v, mv, i);
    let tc = canon_to(v, mv, i);
    let from = w.moving_tiles[i].0;
    let to = w.moving_tiles[i].1;
    assert(v.at_rest(from));
    lemma_cell_gap(v, from, to);
    assert(ticks_between(v.cell(from), v.cell(to)) == (fc.x - tc.x) * ticks_per_cell(v, mv));
    assert((fc.x - tc.x) * ticks_per_cell(v, mv) >= 1) by (nonlinear_arith)
        requires
            fc.x - tc.x >= 1,
            ticks_per_cell(v, mv) >= 1,
    ;
}

/// Once the resolver's moves are in flight, the tiles at rest are the tiles
/// that the push leaves where they are.
pub proof fn lemma_rest(v: GridView, mv: Move, d: Position)
    requires
        v.placed(),
        v.size >= 2,
    ensures
        v.with_moving(v.transitions(mv)).at_rest(d) <==> v.board().dom().contains(d) && slide(
            tile_map(canon_of(v, mv)),
            to_canonical(mv, v.size, d),
        ) == to_canonical(mv, v.size, d),
{
    let w = v.with_moving(v.transitions(mv));
    let canon = canon_of(v, mv);
    let sorted = sorted_by_x(canon);
    let board = tile_map(canon);
    let c = to_canonical(mv, v.size, d);
    lemma_canonical_board(v, mv);
    lemma_sorted_by_x(canon);
    lemma_moves_of(board, sorted);
    if v.board().dom().contains(d) {
        law_rotation_round_trip(mv, v.size, d);
        assert(board.dom().contains(c));
        if slide(board, c) != c {
            lemma_slot_of_held(canon, c);
            let k = slot(canon, c);
            assert(sorted.contains(canon[k]));
            let a = choose|a: int| 0 <= a < sorted.len() && sorted[a] == canon[k];
            assert(sorted[a].0 != slide(board, sorted[a].0));
            let i = choose|i: int|
                0 <= i < moves_of(board, sorted).len() && origin(board, sorted, i) == a;
            lemma_move(v, mv, i);
            assert(w.moving_tiles[i].0 == d);
            assert(departs(w.moving_tiles, d));
        } else {
            if departs(w.moving_tiles, d) {
                let i = choose|i: int|
                    0 <= i < w.moving_tiles.len() && (#[trigger] w.moving_tiles[i]).0 == d;
                lemma_move(v, mv, i);
            }
        }
    }
}

/// Of the resolver's moves, each is sound, and no tile makes two of them.
proof fn lemma_take_off_flights(v: GridView, mv: Move)
    requires
        v.wf(),
        v.moving_tiles.len() == 0,
    ensures
        ({
            let w = v.with_moving(v.transitions(mv));
            &&& forall|i: int| 0 <= i < w.moving_tiles.len() ==> #[trigger] w.flight_ok(i)
            &&& w.all_on_board()
            &&& w.values_ok()
            &&& w.sources_distinct()
            &&& w.resting_at_home()
        }),
{
    let w = v.with_moving(v.transitions(mv));
    let m = w.moving_tiles;
    let canon = canon_of(v, mv);
    let sorted = sorted_by_x(canon);
    let board = tile_map(canon);
    assert forall|i: int| 0 <= i < m.len() implies #[trigger] w.flight_ok(i) && w.on_board(m[i].0)
        && w.on_board(m[i].1) by {
        lemma_flight(v, mv, i);
    }
    assert(w.all_on_board()) by {
        assert forall|i: int| 0 <= i < w.moving_tiles.len() implies w.on_board(
            (#[trigger] w.moving_tiles[i]).0,
        ) && w.on_board(w.moving_tiles[i].1) by {
            assert(w.flight_ok(i));
        }
        assert forall|i: int| 0 <= i < w.tiles.len() implies w.on_board(
            (#[trigger] w.tiles[i]).0,
        ) by {
            assert(v.on_board(v.tiles[i].0));
        }
    }
    assert(w.values_ok()) by {
        assert forall|i: int| 0 <= i < w.tiles.len() implies crate::game::tile_value(
            (#[trigger] w.tiles[i]).1.n,
        ) by {
            assert(crate::game::tile_value(v.tiles[i].1.n));
        }
    }
    assert(w.sources_distinct()) by {
        lemma_canonical_board(v, mv);
        lemma_sorted_by_x(canon);
        lemma_moves_of(board, sorted);
        assert forall|i: int, j: int| 0 <= i < j < m.len() implies (
        #[trigger] w.moving_tiles[i]).0 != (#[trigger] w.moving_tiles[j]).0 by {
            lemma_flight(v, mv, i);
            lemma_flight(v, mv, j);
            let a = origin(board, sorted, i);
            let c = origin(board, sorted, j);
            assert(a < c);
            assert(sorted[a].0 != sorted[c].0);
        }
    }
    assert(w.resting_at_home()) by {
        assert forall|p: Position| #[trigger] w.at_rest(p) implies w.board()[p].coordinates
            == w.cell(p) by {
            assert(v.at_rest(p));
        }
    }
}

/// Two of the resolver's moves whose tiles lie in one row of the resolver's
/// board come in the order of their columns.
proof fn lemma_move_order(v: GridView, mv: Move, i: int, j: int)
    requires
        v.wf(),
        v.moving_tiles.len() == 0,
        0 <= i < v.transitions(mv).len(),
        0 <= j < v.transitions(mv).len(),
    ensures
        canon_from(v, mv, i).x < canon_from(v, mv, j).x ==> i < j,
        i < j ==> canon_from(v, mv, i).x <= canon_from(v, mv, j).x && canon_from(v, mv, i)
            != canon_from(v, mv, j),
{
    let canon = canon_of(v, mv);
    let sorted = sorted_by_x(canon);
    let board = tile_map(canon);
    lemma_canonical_board(v, mv);
    lemma_sorted_by_x(canon);
    lemma_moves_of(board, sorted);
    lemma_flight(v, mv, i);
    lemma_flight(v, mv, j);
    let a = origin(board, sorted, i);
    let c = origin(board, sorted, j);
    if i < j {
        assert(a < c);
        assert(sorted[a].0.x <= sorted[c].0.x);
        assert(sorted[a].0 != sorted[c].0);
    }
    if j < i {
        assert(c < a);
        assert(sorted[c].0.x <= sorted[a].0.x);
    }
}

/// Of the resolver's moves, one whose target another tile still has to leave
/// comes after that tile's move and takes no less time.
proof fn lemma_take_off_leaves_first(v: GridView, mv: Move)
    requires
        v.wf(),
        v.moving_tiles.len() == 0,
    ensures
        v.with_moving(v.transitions(mv)).leaves_first(0),
{
    let w = v.with_moving(v.transitions(mv));
    let m = w.moving_tiles;
    let board = tile_map(canon_of(v, mv));
    let unit = ticks_per_cell(v, mv);
    assert forall|i: int, j: int|
        0 <= i < m.len() && 0 <= j < m.len() && i != j && (#[trigger] w.moving_tiles[i]).1 == (
        #[trigger] w.moving_tiles[j]).0 implies j < i && w.due(j, 0) <= w.due(i, 0) by {
        lemma_flight(v, mv, i);
        lemma_flight(v, mv, j);
        lemma_move_order(v, mv, j, i);
        let fi = canon_from(v, mv, i);
        let fj = canon_from(v, mv, j);
        assert(canon_to(v, mv, i) == fj);
        lemma_slide_pair(board, fj, fi);
        let di = fi.x - canon_to(v, mv, i).x;
        let dj = fj.x - canon_to(v, mv, j).x;
        assert(dj * unit <= di * unit) by (nonlinear_arith)
            requires
                dj <= di,
                unit >= 1,
        ;
    }
}

/// Of the resolver's moves, two to one cell carry one value, the first takes
/// less time, and no tile stays on that cell.
proof fn lemma_take_off_pairs(v: GridView, mv: Move)
    requires
        v.wf(),
        v.moving_tiles.len() == 0,
    ensures
        v.with_moving(v.transitions(mv)).pairs_ok(0),
{
    let w = v.with_moving(v.transitions(mv));
    let m = w.moving_tiles;
    let board = tile_map(canon_of(v, mv));
    let unit = ticks_per_cell(v, mv);
    assert forall|i: int, j: int|
        0 <= i < j < m.len() && (#[trigger] w.moving_tiles[i]).1 == (
        #[trigger] w.moving_tiles[j]).1 implies w.due(i, 0) < w.due(j, 0)
        && w.board()[w.moving_tiles[i].0].n == w.board()[w.moving_tiles[j].0].n && !w.at_rest(
        w.moving_tiles[i].1,
    ) by {
        lemma_flight(v, mv, i);
        lemma_flight(v, mv, j);
        lemma_move_order(v, mv, i, j);
        let fi = canon_from(v, mv, i);
        let fj = canon_from(v, mv, j);
        let t = canon_to(v, mv, i);
        assert(canon_to(v, mv, j) == t);
        lemma_slide_pair(board, fi, fj);
        let di = fi.x - t.x;
        let dj = fj.x - t.x;
        assert(di * unit < dj * unit) by (nonlinear_arith)
            requires
                di < dj,
                unit >= 1,
        ;
        lemma_placed(v);
        lemma_rest(v, mv, w.moving_tiles[i].1);
        if w.at_rest(w.moving_tiles[i].1) {
            lemma_canonical_board(v, mv);
            assert(board.dom().contains(t));
            lemma_slide_no_third(board, t, fi, fj);
        }
    }
}

/// Of the resolver's moves, no three go to one cell.
proof fn lemma_take_off_no_third(v: GridView, mv: Move)
    requires
        v.wf(),
        v.moving_tiles.len() == 0,
    ensures
        v.with_moving(v.transitions(mv)).no_third(),
{
    let w = v.with_moving(v.transitions(mv));
    let m = w.moving_tiles;
    let board = tile_map(canon_of(v, mv));
    assert forall|i: int, j: int, k: int| 0 <= i < j < k < m.len() implies !((
    #[trigger] w.moving_tiles[i]).1 == (#[trigger] w.moving_tiles[j]).1 && w.moving_tiles[j].1 == (
    #[trigger] w.moving_tiles[k]).1) by {
        lemma_flight(v, mv, i);
        lemma_flight(v, mv, j);
        lemma_flight(v, mv, k);
        lemma_move_order(v, mv, i, j);
        lemma_move_order(v, mv, j, k);
        if w.moving_tiles[i].1 == w.moving_tiles[j].1 && w.moving_tiles[j].1
            == w.moving_tiles[k].1 {
            assert(canon_to(v, mv, i) == canon_to(v, mv, j));
            assert(canon_to(v, mv, j) == canon_to(v, mv, k));
            lemma_slide_no_third(
                board,
                canon_from(v, mv, i),
                canon_from(v, mv, j),
                canon_from(v, mv, k),
            );
        }
    }
}

/// Of the resolver's moves, one to a cell where a tile stays carries that
/// tile's value.
proof fn lemma_take_off_merges(v: GridView, mv: Move)
    requires
        v.wf(),
        v.moving_tiles.len() == 0,
    ensures
        v.with_moving(v.transitions(mv)).merges_equal(),
{
    let w = v.with_moving(v.transitions(mv));
    let m = w.moving_tiles;
    let board = tile_map(canon_of(v, mv));
    assert forall|i: int|
        0 <= i < m.len() && w.at_rest(
            (#[trigger] w.moving_tiles[i]).1,
        ) implies w.board()[w.moving_tiles[i].1].n
        == w.board()[w.moving_tiles[i].0].n by {
        lemma_flight(v, mv, i);
        lemma_placed(v);
        lemma_rest(v, mv, w.moving_tiles[i].1);
        lemma_canonical_board(v, mv);
        let t = canon_to(v, mv, i);
        lemma_slide_pair(board, t, canon_from(v, mv, i));
    }
}

/// The moves that the resolver hands out for a grid at rest can be put in
/// flight: the grid that holds them meets the invariant of the scheduler.
pub proof fn lemma_take_off(v: GridView, mv: Move)
    requires
        v.wf(),
        v.moving_tiles.len() == 0,
    ensures
        v.with_moving(v.transitions(mv)).inv(0),
{
    lemma_take_off_flights(v, mv);
    lemma_take_off_leaves_first(v, mv);
    lemma_take_off_pairs(v, mv);
    lemma_take_off_no_third(v, mv);
    lemma_take_off_merges(v, mv);
}

} // verus!
