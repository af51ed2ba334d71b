//! Where a move ends: the board that is left when the last tile has landed
//! is the board that the resolver has laid down.

use vstd::prelude::*;
use crate::animate::{before_removal, lemma_arrive, lemma_departure};
use crate::game::{departs, departure, first_from, GridView, Position};
use crate::store::{
    lemma_entry_lookup, lemma_put, lemma_value_at, lemma_weigh_agree, lemma_weigh_put,
    lemma_weigh_without, put, total, weigh,
};

verus! {

/// The cell that the tile kept under `cell` is headed for: the target of its
/// move, or `cell` itself where the tile is at rest.
pub open spec fn goal(moving: Seq<(Position, Position)>, cell: Position) -> Position {
    if departs(moving, cell) {
        moving[departure(moving, cell)].1
    } else {
        cell
    }
}

impl GridView {
    /// The sum of the values of the tiles that are headed for `cell`.
    pub open spec fn load(self, cell: Position) -> int {
        weigh(self.tiles, |from: Position| goal(self.moving_tiles, from) == cell)
    }
}

/// A tick that does not land the tile of move `b` changes no load.
pub proof fn lemma_approach_load(v: GridView, b: int, cell: Position)
    requires
        v.inv(b),
        0 <= b < v.moving_tiles.len(),
        !v.lands(v.moving_tiles[b].0, v.moving_tiles[b].1),
    ensures
        v.advance(v.moving_tiles[b].0, v.moving_tiles[b].1).load(cell) == v.load(cell),
{
    let from = v.moving_tiles[b].0;
    let to = v.moving_tiles[b].1;
    let w = v.advance(from, to);
    let counted = |k: Position| goal(v.moving_tiles, k) == cell;
    let recounted = |k: Position| goal(w.moving_tiles, k) == cell;
    assert(v.flight_ok(b));
    lemma_value_at(v.tiles, from);
    lemma_weigh_put(v.tiles, from, v.moved_tile(from, to), counted);
    lemma_weigh_agree(w.tiles, counted, recounted);
}

/// A tick that lands the tile of move `b` changes no load: what the tile
/// carried for its target is on the target now.
pub proof fn lemma_arrive_load(v: GridView, b: int, cell: Position)
    requires
        v.inv(b),
        0 <= b < v.moving_tiles.len(),
        v.lands(v.moving_tiles[b].0, v.moving_tiles[b].1),
        total(v.tiles) <= u32::MAX,
    ensures
        v.advance(v.moving_tiles[b].0, v.moving_tiles[b].1).load(cell) == v.load(cell),
{
    let from = v.moving_tiles[b].0;
    let to = v.moving_tiles[b].1;
    let m = v.moving_tiles;
    let w = v.advance(from, to);
    let landed = v.landed_tile(from, to);
    let tiles1 = put(v.tiles, to, landed);
    let counted = |k: Position| goal(m, k) == cell;
    let recounted = |k: Position| goal(w.moving_tiles, k) == cell;
    assert(v.flight_ok(b));
    lemma_arrive(v, b);
    lemma_departure(m, b);
    lemma_put(v.tiles, to, landed);
    lemma_value_at(v.tiles, to);
    lemma_value_at(v.tiles, from);
    lemma_value_at(tiles1, from);
    lemma_weigh_put(v.tiles, to, landed, counted);
    lemma_weigh_without(tiles1, from, counted);
    assert(goal(m, from) == to);
    assert(goal(m, to) == to);
    assert forall|i: int| 0 <= i < w.tiles.len() implies counted((#[trigger] w.tiles[i]).0)
        == recounted(w.tiles[i].0) by {
        let k = w.tiles[i].0;
        lemma_entry_lookup(w.tiles, i);
        assert(k != from);
        if departs(m, k) {
            let j = choose|j: int| 0 <= j < m.len() && (#[trigger] m[j]).0 == k;
            lemma_departure(m, j);
            let j1 = if j < b { j } else { j - 1 };
            assert(w.moving_tiles[j1] == m[j]);
            assert(before_removal(j1, b) == j);
            assert(first_from(w.moving_tiles, k, j1)) by {
                assert forall|h: int| 0 <= h < j1 implies (#[trigger] w.moving_tiles[h]).0 != k by {
                    let h0 = before_removal(h, b);
                    assert(w.moving_tiles[h] == m[h0]);
                    assert(m[h0].0 != m[j].0);
                }
            }
            let j2 = departure(w.moving_tiles, k);
            assert(first_from(w.moving_tiles, k, j2));
            if j2 < j1 {
                assert(w.moving_tiles[j2].0 != k);
            }
            if j1 < j2 {
                assert(w.moving_tiles[j1].0 != k);
            }
        }
    }
    lemma_weigh_agree(w.tiles, counted, recounted);
}

} // verus!
