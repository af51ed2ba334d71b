//! The tile store as mathematics: a list of placed tiles, read as a map from
//! cell to tile, with the two updates the engine performs on it and the sum
//! of the values it holds.

use vstd::prelude::*;
use crate::game::{Position, Tile};

verus! {

/// Some entry of `tiles` sits on `pos`.
pub open spec fn holds(tiles: Seq<(Position, Tile)>, pos: Position) -> bool {
    exists|i: int| 0 <= i < tiles.len() && (#[trigger] tiles[i]).0 == pos
}

/// `i` is the first entry of `tiles` that sits on `pos`.
pub open spec fn first_at(tiles: Seq<(Position, Tile)>, pos: Position, i: int) -> bool {
    &&& 0 <= i < tiles.len()
    &&& tiles[i].0 == pos
    &&& forall|j: int| 0 <= j < i ==> (#[trigger] tiles[j]).0 != pos
}

/// The index of the first entry on `pos`, where there is one.
pub open spec fn slot(tiles: Seq<(Position, Tile)>, pos: Position) -> int {
    choose|i: int| first_at(tiles, pos, i)
}

/// No two entries share a cell.
pub open spec fn distinct(tiles: Seq<(Position, Tile)>) -> bool {
    forall|i: int, j: int|
        0 <= i < j < tiles.len() ==> (#[trigger] tiles[i]).0 != (#[trigger] tiles[j]).0
}

/// The tile on `pos`, if the cell is occupied.
pub open spec fn tile_at(tiles: Seq<(Position, Tile)>, pos: Position) -> Option<Tile> {
    if holds(tiles, pos) {
        Some(tiles[slot(tiles, pos)].1)
    } else {
        None
    }
}

/// The store read as a map from occupied cell to tile.
pub open spec fn tile_map(tiles: Seq<(Position, Tile)>) -> Map<Position, Tile> {
    Map::new(|p: Position| holds(tiles, p), |p: Position| tiles[slot(tiles, p)].1)
}

/// The store after `tile` is written to `pos`: in place where the cell is
/// occupied, at the end otherwise.
pub open spec fn put(tiles: Seq<(Position, Tile)>, pos: Position, tile: Tile) -> Seq<
    (Position, Tile),
> {
    if holds(tiles, pos) {
        tiles.update(slot(tiles, pos), (pos, tile))
    } else {
        tiles.push((pos, tile))
    }
}

/// The store after the cell `pos` is emptied.
pub open spec fn without(tiles: Seq<(Position, Tile)>, pos: Position) -> Seq<(Position, Tile)> {
    if holds(tiles, pos) {
        tiles.remove(slot(tiles, pos))
    } else {
        tiles
    }
}

/// The sum of the values of all tiles.
pub open spec fn total(tiles: Seq<(Position, Tile)>) -> int
    decreases tiles.len(),
{
    if tiles.len() == 0 {
        0
    } else {
        total(tiles.drop_last()) + tiles.last().1.n
    }
}

/// The value on `pos`, or 0 for an empty cell.
pub open spec fn value_at(tiles: Seq<(Position, Tile)>, pos: Position) -> int {
    match tile_at(tiles, pos) {
        Some(t) => t.n as int,
        None => 0,
    }
}

/// An index that carries `pos` is the slot of `pos` when it is the first such.
pub proof fn lemma_first_is_slot(tiles: Seq<(Position, Tile)>, pos: Position, i: int)
    requires
        first_at(tiles, pos, i),
    ensures
        holds(tiles, pos),
        slot(tiles, pos) == i,
{
    let k = slot(tiles, pos);
    assert(first_at(tiles, pos, k));
    if k < i {
        assert(tiles[k].0 != pos);
    }
    if i < k {
        assert(tiles[i].0 != pos);
    }
}

/// In a store without doubles every entry is found under its own cell.
pub proof fn lemma_entry_lookup(tiles: Seq<(Position, Tile)>, i: int)
    requires
        distinct(tiles),
        0 <= i < tiles.len(),
    ensures
        holds(tiles, tiles[i].0),
        slot(tiles, tiles[i].0) == i,
        tile_map(tiles).dom().contains(tiles[i].0),
        tile_map(tiles)[tiles[i].0] == tiles[i].1,
        tile_at(tiles, tiles[i].0) == Some(tiles[i].1),
{
    assert(first_at(tiles, tiles[i].0, i));
    lemma_first_is_slot(tiles, tiles[i].0, i);
}

/// Below any entry on `pos` there is a first one.
proof fn lemma_first_exists(tiles: Seq<(Position, Tile)>, pos: Position, i: int)
    requires
        0 <= i < tiles.len(),
        tiles[i].0 == pos,
    ensures
        exists|k: int| first_at(tiles, pos, k),
    decreases i,
{
    if forall|j: int| 0 <= j < i ==> (#[trigger] tiles[j]).0 != pos {
        assert(first_at(tiles, pos, i));
    } else {
        let j = choose|j: int| 0 <= j < i && (#[trigger] tiles[j]).0 == pos;
        lemma_first_exists(tiles, pos, j);
    }
}

/// The slot of an occupied cell is the first entry that carries that cell.
pub proof fn lemma_slot_of_held(tiles: Seq<(Position, Tile)>, pos: Position)
    requires
        holds(tiles, pos),
    ensures
        first_at(tiles, pos, slot(tiles, pos)),
        0 <= slot(tiles, pos) < tiles.len(),
        tiles[slot(tiles, pos)].0 == pos,
{
    let i = choose|i: int| 0 <= i < tiles.len() && (#[trigger] tiles[i]).0 == pos;
    lemma_first_exists(tiles, pos, i);
}

/// `tile_at` and `tile_map` tell the same story.
pub proof fn lemma_tile_at_map(tiles: Seq<(Position, Tile)>, pos: Position)
    ensures
        tile_at(tiles, pos) is Some <==> tile_map(tiles).dom().contains(pos),
        tile_at(tiles, pos) is Some ==> tile_at(tiles, pos).unwrap() == tile_map(tiles)[pos],
{
}

/// Writing a tile is `insert` on the map, and keeps the store free of doubles.
pub proof fn lemma_put(tiles: Seq<(Position, Tile)>, pos: Position, tile: Tile)
    requires
        distinct(tiles),
    ensures
        distinct(put(tiles, pos, tile)),
        tile_map(put(tiles, pos, tile)) == tile_map(tiles).insert(pos, tile),
        total(put(tiles, pos, tile)) == total(tiles) - value_at(tiles, pos) + tile.n,
{
    let after = put(tiles, pos, tile);
    if holds(tiles, pos) {
        lemma_slot_of_held(tiles, pos);
        let k = slot(tiles, pos);
        assert forall|i: int, j: int| 0 <= i < j < after.len() implies (#[trigger] after[i]).0 != (
        #[trigger] after[j]).0 by {
            assert(after[i].0 == tiles[i].0);
            assert(after[j].0 == tiles[j].0);
        }
        assert forall|q: Position| holds(after, q) <==> holds(tiles, q) by {
            if holds(after, q) {
                let i = choose|i: int| 0 <= i < after.len() && (#[trigger] after[i]).0 == q;
                assert(tiles[i].0 == q);
            }
            if holds(tiles, q) {
                let i = choose|i: int| 0 <= i < tiles.len() && (#[trigger] tiles[i]).0 == q;
                assert(after[i].0 == q);
            }
        }
        assert forall|q: Position| holds(after, q) implies after[slot(after, q)].1 == (if q
            == pos {
            tile
        } else {
            tiles[slot(tiles, q)].1
        }) by {
            lemma_slot_of_held(after, q);
            let i = slot(after, q);
            assert(tiles[i].0 == q);
            lemma_entry_lookup(tiles, i);
        }
        assert(tile_map(after) =~= tile_map(tiles).insert(pos, tile));
        lemma_total_update(tiles, k, (pos, tile));
    } else {
        assert forall|i: int, j: int| 0 <= i < j < after.len() implies (#[trigger] after[i]).0 != (
        #[trigger] after[j]).0 by {
            if j == tiles.len() {
                assert(tiles[i].0 != pos);
            } else {
                assert(after[i].0 == tiles[i].0);
                assert(after[j].0 == tiles[j].0);
            }
        }
        assert forall|q: Position| holds(after, q) <==> (q == pos || holds(tiles, q)) by {
            if holds(after, q) {
                let i = choose|i: int| 0 <= i < after.len() && (#[trigger] after[i]).0 == q;
                if i < tiles.len() {
                    assert(tiles[i].0 == q);
                }
            }
            if holds(tiles, q) {
                let i = choose|i: int| 0 <= i < tiles.len() && (#[trigger] tiles[i]).0 == q;
                assert(after[i].0 == q);
            }
            if q == pos {
                assert(after[tiles.len() as int].0 == q);
            }
        }
        assert forall|q: Position| holds(after, q) implies after[slot(after, q)].1 == (if q
            == pos {
            tile
        } else {
            tiles[slot(tiles, q)].1
        }) by {
            lemma_slot_of_held(after, q);
            let i = slot(after, q);
            if i < tiles.len() {
                assert(tiles[i].0 == q);
                lemma_entry_lookup(tiles, i);
            }
        }
        assert(tile_map(after) =~= tile_map(tiles).insert(pos, tile));
        assert(after.drop_last() =~= tiles);
    }
}

/// Emptying a cell is `remove` on the map, and keeps the store free of doubles.
pub proof fn lemma_without(tiles: Seq<(Position, Tile)>, pos: Position)
    requires
        distinct(tiles),
    ensures
        distinct(without(tiles, pos)),
        tile_map(without(tiles, pos)) == tile_map(tiles).remove(pos),
        total(without(tiles, pos)) == total(tiles) - value_at(tiles, pos),
{
    let after = without(tiles, pos);
    if holds(tiles, pos) {
        lemma_slot_of_held(tiles, pos);
        let k = slot(tiles, pos);
        assert forall|i: int| 0 <= i < after.len() implies #[trigger] after[i] == tiles[if i
            < k {
            i
        } else {
            i + 1
        }] by {}
        assert forall|i: int, j: int| 0 <= i < j < after.len() implies (#[trigger] after[i]).0 != (
        #[trigger] after[j]).0 by {
            let i0 = if i < k { i } else { i + 1 };
            let j0 = if j < k { j } else { j + 1 };
            assert(after[i] == tiles[i0]);
            assert(after[j] == tiles[j0]);
        }
        assert forall|q: Position| holds(after, q) <==> (q != pos && holds(tiles, q)) by {
            if holds(after, q) {
                let i = choose|i: int| 0 <= i < after.len() && (#[trigger] after[i]).0 == q;
                let i0 = if i < k { i } else { i + 1 };
                assert(tiles[i0].0 == q);
                assert(after[i] == tiles[i0]);
                if q == pos {
                    lemma_entry_lookup(tiles, i0);
                }
            }
            if q != pos && holds(tiles, q) {
                let i = choose|i: int| 0 <= i < tiles.len() && (#[trigger] tiles[i]).0 == q;
                let i1 = if i < k { i } else { i - 1 };
                assert(after[i1] == tiles[i]);
            }
        }
        assert forall|q: Position| holds(after, q) implies after[slot(after, q)].1
            == tiles[slot(tiles, q)].1 by {
            lemma_slot_of_held(after, q);
            let i = slot(after, q);
            let i0 = if i < k { i } else { i + 1 };
            assert(after[i] == tiles[i0]);
            lemma_entry_lookup(tiles, i0);
        }
        assert(tile_map(after) =~= tile_map(tiles).remove(pos));
        lemma_total_remove(tiles, k);
    } else {
        assert(tile_map(after) =~= tile_map(tiles).remove(pos));
    }
}

/// Replacing one entry changes the sum by the difference of the two values.
pub proof fn lemma_total_update(tiles: Seq<(Position, Tile)>, i: int, entry: (Position, Tile))
    requires
        0 <= i < tiles.len(),
    ensures
        total(tiles.update(i, entry)) == total(tiles) - tiles[i].1.n + entry.1.n,
    decreases tiles.len(),
{
    let after = tiles.update(i, entry);
    if i == tiles.len() - 1 {
        assert(after.drop_last() =~= tiles.drop_last());
    } else {
        assert(after.drop_last() =~= tiles.drop_last().update(i, entry));
        lemma_total_update(tiles.drop_last(), i, entry);
    }
}

/// Dropping one entry lowers the sum by its value.
pub proof fn lemma_total_remove(tiles: Seq<(Position, Tile)>, i: int)
    requires
        0 <= i < tiles.len(),
    ensures
        total(tiles.remove(i)) == total(tiles) - tiles[i].1.n,
    decreases tiles.len(),
{
    let after = tiles.remove(i);
    if i == tiles.len() - 1 {
        assert(after =~= tiles.drop_last());
    } else {
        assert(after.drop_last() =~= tiles.drop_last().remove(i));
        assert(after.last() == tiles.last());
        lemma_total_remove(tiles.drop_last(), i);
    }
}

/// Appending one entry raises the sum by its value.
pub proof fn lemma_total_push(tiles: Seq<(Position, Tile)>, entry: (Position, Tile))
    ensures
        total(tiles.push(entry)) == total(tiles) + entry.1.n,
{
    assert(tiles.push(entry).drop_last() =~= tiles);
}

/// The sum is never negative and bounds every single value.
pub proof fn lemma_total_bounds(tiles: Seq<(Position, Tile)>, i: int)
    requires
        0 <= i < tiles.len(),
    ensures
        tiles[i].1.n <= total(tiles),
        0 <= total(tiles.remove(i)),
    decreases tiles.len(),
{
    lemma_total_nonnegative(tiles.remove(i));
    lemma_total_remove(tiles, i);
}

/// The sum is never negative.
pub proof fn lemma_total_nonnegative(tiles: Seq<(Position, Tile)>)
    ensures
        0 <= total(tiles),
    decreases tiles.len(),
{
    if tiles.len() > 0 {
        lemma_total_nonnegative(tiles.drop_last());
    }
}

/// Two different entries together do not exceed the sum.
pub proof fn lemma_total_two(tiles: Seq<(Position, Tile)>, i: int, j: int)
    requires
        0 <= i < tiles.len(),
        0 <= j < tiles.len(),
        i != j,
    ensures
        tiles[i].1.n + tiles[j].1.n <= total(tiles),
{
    lemma_total_remove(tiles, i);
    let rest = tiles.remove(i);
    let j1 = if j < i { j } else { j - 1 };
    assert(rest[j1] == tiles[j]);
    lemma_total_bounds(rest, j1);
}

/// Writing a tile adds no entry but the one written.
pub proof fn lemma_put_entries(tiles: Seq<(Position, Tile)>, pos: Position, tile: Tile)
    ensures
        forall|i: int|
            0 <= i < put(tiles, pos, tile).len() ==> (#[trigger] put(tiles, pos, tile)[i]) == (
                pos,
                tile,
            ) || tiles.contains(put(tiles, pos, tile)[i]),
{
    let after = put(tiles, pos, tile);
    if holds(tiles, pos) {
        lemma_slot_of_held(tiles, pos);
    }
    assert forall|i: int| 0 <= i < after.len() implies (#[trigger] after[i]) == (pos, tile)
        || tiles.contains(after[i]) by {
        if after[i] != (pos, tile) {
            assert(tiles[i] == after[i]);
        }
    }
}

/// Emptying a cell adds no entry.
pub proof fn lemma_without_entries(tiles: Seq<(Position, Tile)>, pos: Position)
    ensures
        forall|i: int|
            0 <= i < without(tiles, pos).len() ==> tiles.contains(
                #[trigger] without(tiles, pos)[i],
            ),
{
    let after = without(tiles, pos);
    if holds(tiles, pos) {
        lemma_slot_of_held(tiles, pos);
        let k = slot(tiles, pos);
        assert forall|i: int| 0 <= i < after.len() implies tiles.contains(#[trigger] after[i]) by {
            let i0 = if i < k { i } else { i + 1 };
            assert(tiles[i0] == after[i]);
        }
    } else {
        assert forall|i: int| 0 <= i < after.len() implies tiles.contains(#[trigger] after[i]) by {
            assert(tiles[i] == after[i]);
        }
    }
}

/// The value on an occupied cell, read from the map.
pub proof fn lemma_value_at(tiles: Seq<(Position, Tile)>, pos: Position)
    ensures
        value_at(tiles, pos) == if tile_map(tiles).dom().contains(pos) {
            tile_map(tiles)[pos].n as int
        } else {
            0
        },
{
}

/// Two different occupied cells together do not exceed the sum.
pub proof fn lemma_total_two_cells(tiles: Seq<(Position, Tile)>, p: Position, q: Position)
    requires
        holds(tiles, p),
        holds(tiles, q),
        p != q,
    ensures
        tile_map(tiles)[p].n + tile_map(tiles)[q].n <= total(tiles),
{
    lemma_slot_of_held(tiles, p);
    lemma_slot_of_held(tiles, q);
    lemma_total_two(tiles, slot(tiles, p), slot(tiles, q));
}

/// The sum of a prefix does not exceed the sum of the whole.
pub proof fn lemma_total_take(tiles: Seq<(Position, Tile)>, k: int)
    requires
        0 <= k <= tiles.len(),
    ensures
        total(tiles.take(k)) <= total(tiles),
        k < tiles.len() ==> total(tiles.take(k + 1)) == total(tiles.take(k)) + tiles[k].1.n,
    decreases tiles.len() - k,
{
    if k < tiles.len() {
        assert(tiles.take(k + 1).drop_last() =~= tiles.take(k));
        lemma_total_take(tiles, k + 1);
    } else {
        assert(tiles.take(k) =~= tiles);
    }
}

/// The highest value in the store, or 0 for an empty store.
pub open spec fn highest(tiles: Seq<(Position, Tile)>) -> int
    decreases tiles.len(),
{
    if tiles.len() == 0 {
        0
    } else if tiles.last().1.n >= highest(tiles.drop_last()) {
        tiles.last().1.n as int
    } else {
        highest(tiles.drop_last())
    }
}

/// The highest value bounds every value, and some tile carries it.
pub proof fn lemma_highest(tiles: Seq<(Position, Tile)>)
    ensures
        forall|i: int| 0 <= i < tiles.len() ==> (#[trigger] tiles[i]).1.n <= highest(tiles),
        tiles.len() > 0 ==> exists|i: int|
            0 <= i < tiles.len() && (#[trigger] tiles[i]).1.n == highest(tiles),
        tiles.len() == 0 ==> highest(tiles) == 0,
    decreases tiles.len(),
{
    if tiles.len() > 0 {
        let rest = tiles.drop_last();
        lemma_highest(rest);
        assert forall|i: int| 0 <= i < tiles.len() implies (#[trigger] tiles[i]).1.n <= highest(
            tiles,
        ) by {
            if i < rest.len() {
                assert(rest[i] == tiles[i]);
            }
        }
        if tiles.last().1.n >= highest(rest) {
            assert(tiles[tiles.len() - 1].1.n == highest(tiles));
        } else {
            let i = choose|i: int| 0 <= i < rest.len() && (#[trigger] rest[i]).1.n == highest(rest);
            assert(tiles[i] == rest[i]);
        }
    }
}

/// What an entry adds to a sum that counts the cells picked by `counted`.
pub open spec fn counted_value(entry: (Position, Tile), counted: spec_fn(Position) -> bool) -> int {
    if counted(entry.0) {
        entry.1.n as int
    } else {
        0
    }
}

/// The sum of the values of the tiles on the cells picked by `counted`.
pub open spec fn weigh(tiles: Seq<(Position, Tile)>, counted: spec_fn(Position) -> bool) -> int
    decreases tiles.len(),
{
    if tiles.len() == 0 {
        0
    } else {
        weigh(tiles.drop_last(), counted) + counted_value(tiles.last(), counted)
    }
}

/// Replacing one entry changes a counted sum by what the two entries add.
pub proof fn lemma_weigh_update(
    tiles: Seq<(Position, Tile)>,
    i: int,
    entry: (Position, Tile),
    counted: spec_fn(Position) -> bool,
)
    requires
        0 <= i < tiles.len(),
    ensures
        weigh(tiles.update(i, entry), counted) == weigh(tiles, counted) - counted_value(
            tiles[i],
            counted,
        ) + counted_value(entry, counted),
    decreases tiles.len(),
{
    let after = tiles.update(i, entry);
    if i == tiles.len() - 1 {
        assert(after.drop_last() =~= tiles.drop_last());
    } else {
        assert(after.drop_last() =~= tiles.drop_last().update(i, entry));
        lemma_weigh_update(tiles.drop_last(), i, entry, counted);
    }
}

/// Dropping one entry lowers a counted sum by what the entry adds.
pub proof fn lemma_weigh_remove(
    tiles: Seq<(Position, Tile)>,
    i: int,
    counted: spec_fn(Position) -> bool,
)
    requires
        0 <= i < tiles.len(),
    ensures
        weigh(tiles.remove(i), counted) == weigh(tiles, counted) - counted_value(tiles[i], counted),
    decreases tiles.len(),
{
    let after = tiles.remove(i);
    if i == tiles.len() - 1 {
        assert(after =~= tiles.drop_last());
    } else {
        assert(after.drop_last() =~= tiles.drop_last().remove(i));
        assert(after.last() == tiles.last());
        lemma_weigh_remove(tiles.drop_last(), i, counted);
    }
}

/// Two ways of counting that agree on the cells of the store give one sum.
pub proof fn lemma_weigh_agree(
    tiles: Seq<(Position, Tile)>,
    first: spec_fn(Position) -> bool,
    second: spec_fn(Position) -> bool,
)
    requires
        forall|i: int|
            0 <= i < tiles.len() ==> first((#[trigger] tiles[i]).0) == second(tiles[i].0),
    ensures
        weigh(tiles, first) == weigh(tiles, second),
    decreases tiles.len(),
{
    if tiles.len() > 0 {
        let rest = tiles.drop_last();
        assert forall|i: int| 0 <= i < rest.len() implies first((#[trigger] rest[i]).0) == second(
            rest[i].0,
        ) by {
            assert(rest[i] == tiles[i]);
        }
        lemma_weigh_agree(rest, first, second);
        assert(first(tiles[tiles.len() - 1].0) == second(tiles[tiles.len() - 1].0));
    }
}

/// Writing a tile changes a counted sum by the difference to the value that
/// was on the cell, where the cell is counted.
pub proof fn lemma_weigh_put(
    tiles: Seq<(Position, Tile)>,
    pos: Position,
    tile: Tile,
    counted: spec_fn(Position) -> bool,
)
    ensures
        weigh(put(tiles, pos, tile), counted) == weigh(tiles, counted) + if counted(pos) {
            tile.n - value_at(tiles, pos)
        } else {
            0
        },
{
    if holds(tiles, pos) {
        lemma_slot_of_held(tiles, pos);
        lemma_weigh_update(tiles, slot(tiles, pos), (pos, tile), counted);
    } else {
        assert(tiles.push((pos, tile)).drop_last() =~= tiles);
    }
}

/// Emptying a cell lowers a counted sum by the value that was on the cell,
/// where the cell is counted.
pub proof fn lemma_weigh_without(
    tiles: Seq<(Position, Tile)>,
    pos: Position,
    counted: spec_fn(Position) -> bool,
)
    ensures
        weigh(without(tiles, pos), counted) == weigh(tiles, counted) - if counted(pos) {
            value_at(tiles, pos)
        } else {
            0
        },
{
    if holds(tiles, pos) {
        lemma_slot_of_held(tiles, pos);
        lemma_weigh_remove(tiles, slot(tiles, pos), counted);
    }
}

/// In a store without doubles, the sum that counts one cell is the value on
/// that cell.
pub proof fn lemma_weigh_cell(tiles: Seq<(Position, Tile)>, cell: Position)
    requires
        distinct(tiles),
    ensures
        weigh(tiles, |p: Position| p == cell) == value_at(tiles, cell),
    decreases tiles.len(),
{
    let counted = |p: Position| p == cell;
    if tiles.len() > 0 {
        let rest = tiles.drop_last();
        let last = tiles.last();
        assert(distinct(rest)) by {
            assert forall|i: int, j: int| 0 <= i < j < rest.len() implies (#[trigger] rest[i]).0 != (
            #[trigger] rest[j]).0 by {
                assert(rest[i] == tiles[i] && rest[j] == tiles[j]);
            }
        }
        lemma_weigh_cell(rest, cell);
        if last.0 == cell {
            lemma_entry_lookup(tiles, tiles.len() - 1);
            if holds(rest, cell) {
                let i = choose|i: int| 0 <= i < rest.len() && (#[trigger] rest[i]).0 == cell;
                assert(tiles[i].0 == cell);
            }
        } else {
            if holds(tiles, cell) {
                lemma_slot_of_held(tiles, cell);
                let i = slot(tiles, cell);
                assert(rest[i] == tiles[i]);
                lemma_entry_lookup(rest, i);
            } else {
                if holds(rest, cell) {
                    let i = choose|i: int| 0 <= i < rest.len() && (#[trigger] rest[i]).0 == cell;
                    assert(tiles[i].0 == cell);
                }
            }
        }
    } else {
        assert(!holds(tiles, cell));
    }
}

/// The number of tiles on the cells picked by `counted`.
pub open spec fn count(tiles: Seq<(Position, Tile)>, counted: spec_fn(Position) -> bool) -> int
    decreases tiles.len(),
{
    if tiles.len() == 0 {
        0
    } else {
        count(tiles.drop_last(), counted) + if counted(tiles.last().0) {
            1int
        } else {
            0int
        }
    }
}

/// Where every counted tile carries the value `n`, the counted sum is `n`
/// times the number of counted tiles.
pub proof fn lemma_weigh_equal_values(
    tiles: Seq<(Position, Tile)>,
    counted: spec_fn(Position) -> bool,
    n: int,
)
    requires
        forall|i: int|
            0 <= i < tiles.len() && counted((#[trigger] tiles[i]).0) ==> tiles[i].1.n == n,
    ensures
        weigh(tiles, counted) == count(tiles, counted) * n,
        0 <= count(tiles, counted),
    decreases tiles.len(),
{
    if tiles.len() > 0 {
        let rest = tiles.drop_last();
        assert forall|i: int|
            0 <= i < rest.len() && counted((#[trigger] rest[i]).0) implies rest[i].1.n
            == n by {
            assert(rest[i] == tiles[i]);
        }
        lemma_weigh_equal_values(rest, counted, n);
        if counted(tiles.last().0) {
            assert(tiles[tiles.len() - 1].1.n == n);
        }
        assert((count(rest, counted) + 1) * n == count(rest, counted) * n + n)
            by (nonlinear_arith);
    }
}

/// The number of counted tiles is 0 exactly where no cell of the store is
/// counted; where no two are, it is 1 at most; where no three are, 2 at most.
pub proof fn lemma_count_few(tiles: Seq<(Position, Tile)>, counted: spec_fn(Position) -> bool)
    ensures
        0 <= count(tiles, counted),
        (forall|i: int| 0 <= i < tiles.len() ==> !counted((#[trigger] tiles[i]).0)) ==> count(
            tiles,
            counted,
        ) == 0,
        (forall|i: int, j: int|
            0 <= i < j < tiles.len() ==> !(counted((#[trigger] tiles[i]).0) && counted(
                (#[trigger] tiles[j]).0,
            ))) ==> count(tiles, counted) <= 1,
        (forall|i: int, j: int, k: int|
            0 <= i < j < k < tiles.len() ==> !(counted((#[trigger] tiles[i]).0) && counted(
                (#[trigger] tiles[j]).0,
            ) && counted((#[trigger] tiles[k]).0))) ==> count(tiles, counted) <= 2,
        count(tiles, counted) > 0 <==> exists|i: int|
            0 <= i < tiles.len() && counted((#[trigger] tiles[i]).0),
    decreases tiles.len(),
{
    if tiles.len() > 0 {
        let rest = tiles.drop_last();
        let last = tiles.len() - 1;
        lemma_count_few(rest, counted);
        if exists|i: int| 0 <= i < tiles.len() && counted((#[trigger] tiles[i]).0) {
            let i = choose|i: int| 0 <= i < tiles.len() && counted((#[trigger] tiles[i]).0);
            if i < last {
                assert(rest[i] == tiles[i]);
            }
        }
        assert forall|i: int| 0 <= i < rest.len() implies (#[trigger] rest[i]) == tiles[i] by {}
        if forall|i: int| 0 <= i < tiles.len() ==> !counted((#[trigger] tiles[i]).0) {
            assert forall|i: int| 0 <= i < rest.len() implies !counted((#[trigger] rest[i]).0) by {
                assert(rest[i] == tiles[i]);
            }
            assert(!counted(tiles[last].0));
        }
        if forall|i: int, j: int|
            0 <= i < j < tiles.len() ==> !(counted((#[trigger] tiles[i]).0) && counted(
                (#[trigger] tiles[j]).0,
            )) {
            assert forall|i: int, j: int| 0 <= i < j < rest.len() implies !(counted(
                (#[trigger] rest[i]).0,
            ) && counted((#[trigger] rest[j]).0)) by {
                assert(rest[i] == tiles[i] && rest[j] == tiles[j]);
            }
            if counted(tiles[last].0) {
                assert forall|i: int| 0 <= i < rest.len() implies !counted(
                    (#[trigger] rest[i]).0,
                ) by {
                    assert(rest[i] == tiles[i]);
                    assert(!(counted(tiles[i].0) && counted(tiles[last].0)));
                }
            }
        }
        if forall|i: int, j: int, k: int|
            0 <= i < j < k < tiles.len() ==> !(counted((#[trigger] tiles[i]).0) && counted(
                (#[trigger] tiles[j]).0,
            ) && counted((#[trigger] tiles[k]).0)) {
            assert forall|i: int, j: int, k: int| 0 <= i < j < k < rest.len() implies !(counted(
                (#[trigger] rest[i]).0,
            ) && counted((#[trigger] rest[j]).0) && counted((#[trigger] rest[k]).0)) by {
                assert(rest[i] == tiles[i] && rest[j] == tiles[j] && rest[k] == tiles[k]);
            }
            if counted(tiles[last].0) {
                assert forall|i: int, j: int| 0 <= i < j < rest.len() implies !(counted(
                    (#[trigger] rest[i]).0,
                ) && counted((#[trigger] rest[j]).0)) by {
                    assert(rest[i] == tiles[i] && rest[j] == tiles[j]);
                    assert(!(counted(tiles[i].0) && counted(tiles[j].0) && counted(
                        tiles[last].0,
                    )));
                }
            }
        }
        if count(tiles, counted) > 0 {
            if counted(tiles[last].0) {
            } else {
                let i = choose|i: int| 0 <= i < rest.len() && counted((#[trigger] rest[i]).0);
                assert(rest[i] == tiles[i]);
            }
        }
    }
}

} // verus!
