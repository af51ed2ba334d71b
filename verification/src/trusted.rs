//! The two calls this library makes into other crates, with what is taken on
//! trust about each, and what follows from that for the rest of the library.

use vstd::prelude::*;
use itertools::Itertools;
use rand::seq::SliceRandom;
use crate::game::{Position, Tile};
use crate::store::{distinct, total};

verus! {

/// The entries of `tiles` whose cell lies in column `x`, in their order.
pub open spec fn column(tiles: Seq<(Position, Tile)>, x: int) -> Seq<(Position, Tile)> {
    tiles.filter(|entry: (Position, Tile)| entry.0.x == x)
}

/// Columns 0 to `x` of `tiles`, one after the other.
pub open spec fn columns_through(tiles: Seq<(Position, Tile)>, x: int) -> Seq<(Position, Tile)>
    decreases x + 1,
{
    if x < 0 {
        Seq::empty()
    } else {
        columns_through(tiles, x - 1) + column(tiles, x)
    }
}

/// `tiles` in ascending order of column, entries of one column in the order
/// they had: the stable sort of `tiles` by `x`.
pub open spec fn sorted_by_x(tiles: Seq<(Position, Tile)>) -> Seq<(Position, Tile)> {
    columns_through(tiles, u16::MAX as int)
}

/// Sorts the store by column with `Itertools::sorted_by_key`.
///
/// Trusted: that method collects the items into a `Vec` and sorts it with
/// `slice::sort_by_key`, which orders by the key and is stable. The contract
/// says exactly that: the result is the stable sort by `x`.
#[verifier::external_body]
pub(crate) fn sort_by_x(tiles: &Vec<(Position, Tile)>) -> (sorted: Vec<(Position, Tile)>)
    ensures
        sorted@ == sorted_by_x(tiles@),
{
    tiles.iter().copied().sorted_by_key(|entry| entry.0.x).collect()
}

/// Picks one of `available` with `SliceRandom::choose` on the generator that
/// `rand::thread_rng` hands out.
///
/// Trusted: an empty slice gives `None`, any other gives one of its
/// elements. Which one is left open, and so is that the choice is uniform.
/// The generator is seeded from the operating system when a thread first
/// uses it; the program ends there if the system has no randomness to give.
#[verifier::external_body]
pub(crate) fn choose_cell(available: &Vec<Position>) -> (r: Option<Position>)
    ensures
        available@.len() == 0 ==> r is None,
        available@.len() > 0 ==> r is Some && available@.contains(r.unwrap()),
{
    available.choose(&mut rand::thread_rng()).copied()
}

/// What one column of a store holds.
pub proof fn lemma_column(tiles: Seq<(Position, Tile)>, x: int)
    ensures
        forall|k: int|
            0 <= k < column(tiles, x).len() ==> tiles.contains(#[trigger] column(tiles, x)[k])
                && column(tiles, x)[k].0.x == x,
        forall|i: int|
            0 <= i < tiles.len() && tiles[i].0.x == x ==> column(tiles, x).contains(
                #[trigger] tiles[i],
            ),
        distinct(tiles) ==> distinct(column(tiles, x)),
    decreases tiles.len(),
{
    reveal(Seq::filter);
    let pred = |entry: (Position, Tile)| entry.0.x == x;
    let col = column(tiles, x);
    if tiles.len() > 0 {
        let rest = tiles.drop_last();
        let sub = column(rest, x);
        lemma_column(rest, x);
        assert forall|k: int| 0 <= k < col.len() implies tiles.contains(#[trigger] col[k])
            && col[k].0.x == x by {
            if k < sub.len() {
                assert(col[k] == sub[k]);
                assert(rest.contains(sub[k]));
                let i = choose|i: int| 0 <= i < rest.len() && rest[i] == sub[k];
                assert(tiles[i] == col[k]);
            } else {
                assert(col[k] == tiles.last());
                assert(tiles[tiles.len() - 1] == col[k]);
            }
        }
        assert forall|i: int| 0 <= i < tiles.len() && tiles[i].0.x == x implies col.contains(
            #[trigger] tiles[i],
        ) by {
            if i < rest.len() {
                assert(rest[i] == tiles[i]);
                assert(sub.contains(rest[i]));
                let k = choose|k: int| 0 <= k < sub.len() && sub[k] == rest[i];
                assert(col[k] == tiles[i]);
            } else {
                assert(col[col.len() - 1] == tiles[i]);
            }
        }
        if distinct(tiles) {
            assert(distinct(rest)) by {
                assert forall|i: int, j: int| 0 <= i < j < rest.len() implies (
                #[trigger] rest[i]).0 != (#[trigger] rest[j]).0 by {
                    assert(rest[i] == tiles[i]);
                    assert(rest[j] == tiles[j]);
                }
            }
            assert forall|a: int, b: int| 0 <= a < b < col.len() implies (#[trigger] col[a]).0 != (
            #[trigger] col[b]).0 by {
                if b < sub.len() {
                    assert(col[a] == sub[a]);
                    assert(col[b] == sub[b]);
                } else {
                    assert(col[a] == sub[a]);
                    assert(rest.contains(sub[a]));
                    let i = choose|i: int| 0 <= i < rest.len() && rest[i] == sub[a];
                    assert(tiles[i] == col[a]);
                    assert(tiles[tiles.len() - 1] == col[b]);
                }
            }
        }
    }
}

/// What the first columns of a store hold, taken together.
pub proof fn lemma_columns_through(tiles: Seq<(Position, Tile)>, x: int)
    requires
        -1 <= x,
    ensures
        forall|k: int|
            0 <= k < columns_through(tiles, x).len() ==> tiles.contains(
                #[trigger] columns_through(tiles, x)[k],
            ) && columns_through(tiles, x)[k].0.x <= x,
        forall|a: int, b: int|
            0 <= a < b < columns_through(tiles, x).len() ==> (#[trigger] columns_through(
                tiles,
                x,
            )[a]).0.x <= (#[trigger] columns_through(tiles, x)[b]).0.x,
        forall|i: int|
            0 <= i < tiles.len() && tiles[i].0.x <= x ==> columns_through(tiles, x).contains(
                #[trigger] tiles[i],
            ),
        distinct(tiles) ==> distinct(columns_through(tiles, x)),
    decreases x + 1,
{
    let all = columns_through(tiles, x);
    if x >= 0 {
        let before = columns_through(tiles, x - 1);
        let col = column(tiles, x);
        lemma_columns_through(tiles, x - 1);
        lemma_column(tiles, x);
        assert forall|k: int| 0 <= k < all.len() implies tiles.contains(#[trigger] all[k])
            && all[k].0.x <= x by {
            if k < before.len() {
                assert(all[k] == before[k]);
            } else {
                assert(all[k] == col[k - before.len()]);
            }
        }
        assert forall|a: int, b: int| 0 <= a < b < all.len() implies (#[trigger] all[a]).0.x <= (
        #[trigger] all[b]).0.x by {
            if a < before.len() {
                assert(all[a] == before[a]);
            } else {
                assert(all[a] == col[a - before.len()]);
            }
            if b < before.len() {
                assert(all[b] == before[b]);
            } else {
                assert(all[b] == col[b - before.len()]);
            }
        }
        assert forall|i: int| 0 <= i < tiles.len() && tiles[i].0.x <= x implies all.contains(
            #[trigger] tiles[i],
        ) by {
            if tiles[i].0.x <= x - 1 {
                assert(before.contains(tiles[i]));
                let k = choose|k: int| 0 <= k < before.len() && before[k] == tiles[i];
                assert(all[k] == tiles[i]);
            } else {
                assert(col.contains(tiles[i]));
                let k = choose|k: int| 0 <= k < col.len() && col[k] == tiles[i];
                assert(all[before.len() + k] == tiles[i]);
            }
        }
        if distinct(tiles) {
            assert forall|a: int, b: int| 0 <= a < b < all.len() implies (#[trigger] all[a]).0 != (
            #[trigger] all[b]).0 by {
                if b < before.len() {
                    assert(all[a] == before[a]);
                    assert(all[b] == before[b]);
                } else if a < before.len() {
                    assert(all[a] == before[a]);
                    assert(all[b] == col[b - before.len()]);
                } else {
                    assert(all[a] == col[a - before.len()]);
                    assert(all[b] == col[b - before.len()]);
                }
            }
        }
    }
}

/// The sorted store holds the entries of the store, each once, in ascending
/// order of column.
pub proof fn lemma_sorted_by_x(tiles: Seq<(Position, Tile)>)
    ensures
        forall|k: int|
            0 <= k < sorted_by_x(tiles).len() ==> tiles.contains(#[trigger] sorted_by_x(tiles)[k]),
        forall|a: int, b: int|
            0 <= a < b < sorted_by_x(tiles).len() ==> (#[trigger] sorted_by_x(tiles)[a]).0.x <= (
            #[trigger] sorted_by_x(tiles)[b]).0.x,
        forall|i: int|
            0 <= i < tiles.len() ==> sorted_by_x(tiles).contains(#[trigger] tiles[i]),
        distinct(tiles) ==> distinct(sorted_by_x(tiles)),
{
    lemma_columns_through(tiles, u16::MAX as int);
}

/// The sum of two stores laid end to end is the sum of their sums.
pub proof fn lemma_total_concat(a: Seq<(Position, Tile)>, b: Seq<(Position, Tile)>)
    ensures
        total(a + b) == total(a) + total(b),
    decreases b.len(),
{
    if b.len() == 0 {
        assert(a + b =~= a);
    } else {
        assert((a + b).drop_last() =~= a + b.drop_last());
        assert((a + b).last() == b.last());
        lemma_total_concat(a, b.drop_last());
    }
}

/// The entries of `tiles` in columns 0 to `x`, in their order.
pub open spec fn up_to_column(tiles: Seq<(Position, Tile)>, x: int) -> Seq<(Position, Tile)> {
    tiles.filter(|entry: (Position, Tile)| entry.0.x <= x)
}

/// Columns 0 to `x` weigh as much one after the other as they do in place.
proof fn lemma_total_columns(tiles: Seq<(Position, Tile)>, x: int)
    requires
        -1 <= x,
    ensures
        total(columns_through(tiles, x)) == total(up_to_column(tiles, x)),
    decreases x + 1,
{
    if x < 0 {
        lemma_total_split(tiles, x);
    } else {
        lemma_total_columns(tiles, x - 1);
        lemma_total_concat(columns_through(tiles, x - 1), column(tiles, x));
        lemma_total_split(tiles, x);
    }
}

/// Column `x` is what columns 0 to `x` hold beyond columns 0 to `x - 1`.
proof fn lemma_total_split(tiles: Seq<(Position, Tile)>, x: int)
    ensures
        total(up_to_column(tiles, x)) == total(up_to_column(tiles, x - 1)) + total(
            column(tiles, x),
        ),
        x < 0 ==> total(up_to_column(tiles, x)) == 0,
        x >= u16::MAX ==> total(up_to_column(tiles, x)) == total(tiles),
    decreases tiles.len(),
{
    reveal(Seq::filter);
    if tiles.len() > 0 {
        lemma_total_split(tiles.drop_last(), x);
        let rest = tiles.drop_last();
        let last = tiles.last();
        if last.0.x <= x {
            assert(up_to_column(tiles, x).drop_last() =~= up_to_column(rest, x));
        }
        if last.0.x <= x - 1 {
            assert(up_to_column(tiles, x - 1).drop_last() =~= up_to_column(rest, x - 1));
        }
        if last.0.x == x {
            assert(column(tiles, x).drop_last() =~= column(rest, x));
        }
    }
}

/// Sorting keeps the sum.
pub proof fn lemma_total_sorted(tiles: Seq<(Position, Tile)>)
    ensures
        total(sorted_by_x(tiles)) == total(tiles),
{
    lemma_total_columns(tiles, u16::MAX as int);
    lemma_total_split(tiles, u16::MAX as int);
}

} // verus!
